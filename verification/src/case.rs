//! One test case: a name, the parameter bindings, and the mismatches
//! recorded while it runs.
//!
//! A case is born from the parser, is handed to the caller's test logic,
//! which reads parameters with [`TestCase::get_param`] and declares freshly
//! computed values with [`TestCase::compare_and_update_param`], and is then
//! read by the report builder and, in update mode, by the writer.

use vstd::prelude::*;

use crate::params::distinct_keys;
use crate::params::lemma_lookup_at;
use crate::params::lemma_lookup_none;
use crate::params::lemma_set_value_at;
use crate::params::lemma_set_value_shape;
use crate::params::lemma_store_distinct;
use crate::params::lookup;
use crate::params::store;
use crate::params::value_or_empty;
use crate::text::str_eq;

verus! {

/// Mathematical view of one recorded mismatch.
#[verifier::ext_equal]
pub struct DiffView {
    /// The parameter that mismatched.
    pub param: Seq<char>,
    /// The value stored before the run.
    pub previous: Seq<char>,
    /// The value the test logic computed during the run.
    pub computed: Seq<char>,
}

/// Mathematical view of one case.
#[verifier::ext_equal]
pub struct CaseView {
    /// The case's name, from its header line.
    pub name: Seq<char>,
    /// (name, value) bindings in first-insertion order.
    pub params: Seq<(Seq<char>, Seq<char>)>,
    /// How many leading bindings came from the file.  Only those are
    /// serialized; bindings the test logic adds are run-scoped.
    pub n_parsed: nat,
    /// Mismatches recorded so far, in the order they were declared.
    pub diffs: Seq<DiffView>,
}

impl CaseView {
    /// Structural invariant: a named case, parameter names distinct, and the
    /// serialized prefix within bounds.
    pub open spec fn wf(self) -> bool {
        &&& self.name.len() > 0
        &&& self.n_parsed <= self.params.len()
        &&& distinct_keys(self.params)
    }
}

/// What one `compare_and_update_param` call does to a case: the binding is
/// set to the computed value (created if absent), and a mismatch is recorded
/// when the computed value differs from what was stored before (absence
/// counting as the empty value).
pub open spec fn apply_cau(c: CaseView, param: Seq<char>, computed: Seq<char>) -> CaseView {
    let previous = value_or_empty(c.params, param);
    CaseView {
        name: c.name,
        params: store(c.params, param, computed),
        n_parsed: c.n_parsed,
        diffs: if previous == computed {
            c.diffs
        } else {
            c.diffs.push(DiffView { param, previous, computed })
        },
    }
}

/// The capability boundary: test logic works on a case only through
/// `get_param` and `compare_and_update_param`, so across one run the case's
/// name and its serialized parameter names are untouched, parameter names
/// keep their first-insertion order, the diff list only grows, and
/// well-formedness is preserved.
pub open spec fn capability_step(pre: CaseView, post: CaseView) -> bool {
    &&& post.name == pre.name
    &&& post.n_parsed == pre.n_parsed
    &&& pre.params.len() <= post.params.len()
    &&& forall|i: int| 0 <= i < pre.params.len() ==> (#[trigger] post.params[i].0) == pre.params[i].0
    &&& pre.diffs.len() <= post.diffs.len()
    &&& forall|i: int| 0 <= i < pre.diffs.len() ==> (#[trigger] post.diffs[i]) == pre.diffs[i]
    &&& pre.wf() ==> post.wf()
}

/// One recorded mismatch.
#[derive(Clone, Debug)]
pub(crate) struct Diff {
    pub(crate) param: String,
    pub(crate) previous: String,
    pub(crate) computed: String,
}

impl View for Diff {
    type V = DiffView;

    open(crate) spec fn view(&self) -> DiffView {
        DiffView { param: self.param@, previous: self.previous@, computed: self.computed@ }
    }
}

/// One logical case of a golden file.
#[derive(Clone, Debug)]
pub struct TestCase {
    pub(crate) name: String,
    pub(crate) params: Vec<(String, String)>,
    pub(crate) n_parsed: usize,
    pub(crate) diffs: Vec<Diff>,
}

impl View for TestCase {
    type V = CaseView;

    open(crate) spec fn view(&self) -> CaseView {
        CaseView {
            name: self.name@,
            params: Seq::new(self.params@.len(), |i: int| (self.params@[i].0@, self.params@[i].1@)),
            n_parsed: self.n_parsed as nat,
            diffs: Seq::new(self.diffs@.len(), |i: int| self.diffs@[i]@),
        }
    }
}

/// Something that can be tested against a golden file: the caller's test
/// logic, invoked once per case.
///
/// The contract records the capability boundary of the engine: the logic is
/// given exclusive mutable access to the case's parameter view and interacts
/// with it through [`TestCase::get_param`] and
/// [`TestCase::compare_and_update_param`], both of which satisfy
/// [`capability_step`].
pub trait Testable {
    /// Run the test logic over one case.
    fn run_testcase(&mut self, case: &mut TestCase)
        ensures
            capability_step(old(case)@, final(case)@),
    ;
}

impl TestCase {
    /// The case's name, from its header line.
    pub fn name(&self) -> (r: &String)
        ensures
            r@ == self@.name,
    {
        &self.name
    }

    /// Returns a param's value if it exists.
    pub fn get_param(&self, param: &str) -> (r: Option<String>)
        ensures
            match r {
                Some(v) => lookup(self@.params, param@) == Some(v@),
                None => lookup(self@.params, param@) is None,
            },
    {
        let n = self.params.len();
        let mut i: usize = 0;
        while i < n
            invariant
                i <= n,
                n == self.params@.len(),
                forall|k: int| 0 <= k < i ==> (#[trigger] self@.params[k].0) != param@,
            decreases n - i,
        {
            if str_eq(self.params[i].0.as_str(), param) {
                proof {
                    lemma_lookup_at(self@.params, param@, i as int);
                }
                return Some(self.params[i].1.clone());
            }
            i = i + 1;
        }
        proof {
            lemma_lookup_none(self@.params, param@);
        }
        None
    }

    /// Sets the parameter to the freshly computed value, creating it if
    /// absent, and records a mismatch when that value differs from the one
    /// stored before the call (absence counting as the empty value).  After
    /// the call the stored state reflects what the test logic computed this
    /// time, so the case is ready for re-serialization as a new baseline.
    pub fn compare_and_update_param(&mut self, param: &str, computed: &str)
        ensures
            final(self)@ == apply_cau(old(self)@, param@, computed@),
            capability_step(old(self)@, final(self)@),
    {
        let n = self.params.len();
        let mut i: usize = 0;
        while i < n
            invariant
                i <= n,
                n == self.params@.len(),
                *self == *old(self),
                forall|k: int| 0 <= k < i ==> (#[trigger] self@.params[k].0) != param@,
            decreases n - i,
        {
            if str_eq(self.params[i].0.as_str(), param) {
                proof {
                    lemma_lookup_at(self@.params, param@, i as int);
                    lemma_set_value_at(self@.params, param@, computed@, i as int);
                }
                let (key, previous) = self.params.remove(i);
                self.params.insert(i, (key, computed.to_owned()));
                proof {
                    assert(self@.params =~= old(self)@.params.update(
                        i as int,
                        (old(self)@.params[i as int].0, computed@),
                    ));
                    assert(self@.params =~= store(old(self)@.params, param@, computed@));
                }
                if !str_eq(previous.as_str(), computed) {
                    self.diffs.push(
                        Diff {
                            param: param.to_owned(),
                            previous,
                            computed: computed.to_owned(),
                        },
                    );
                    proof {
                        assert(self@.diffs =~= old(self)@.diffs.push(
                            DiffView {
                                param: param@,
                                previous: value_or_empty(old(self)@.params, param@),
                                computed: computed@,
                            },
                        ));
                    }
                } else {
                    proof {
                        assert(self@.diffs =~= old(self)@.diffs);
                    }
                }
                proof {
                    assert(final(self)@ =~= apply_cau(old(self)@, param@, computed@));
                    step_holds(old(self)@, param@, computed@);
                }
                return;
            }
            i = i + 1;
        }
        proof {
            lemma_lookup_none(self@.params, param@);
        }
        self.params.push((param.to_owned(), computed.to_owned()));
        proof {
            assert(self@.params =~= store(old(self)@.params, param@, computed@));
        }
        if computed.unicode_len() != 0 {
            self.diffs.push(
                Diff { param: param.to_owned(), previous: String::new(), computed: computed.to_owned() },
            );
            proof {
                assert(self@.diffs =~= old(self)@.diffs.push(
                    DiffView { param: param@, previous: Seq::empty(), computed: computed@ },
                ));
            }
        } else {
            proof {
                assert(value_or_empty(old(self)@.params, param@) =~= computed@);
                assert(self@.diffs =~= old(self)@.diffs);
            }
        }
        proof {
            assert(final(self)@ =~= apply_cau(old(self)@, param@, computed@));
            step_holds(old(self)@, param@, computed@);
        }
    }
}

/// `compare_and_update_param` respects the capability boundary.
proof fn step_holds(c: CaseView, param: Seq<char>, computed: Seq<char>)
    ensures
        capability_step(c, apply_cau(c, param, computed)),
{
    if lookup(c.params, param) is Some {
        lemma_set_value_shape(c.params, param, computed);
    } else {
        lemma_lookup_none(c.params, param);
    }
    if c.wf() {
        lemma_store_distinct(c.params, param, computed);
    }
}

} // verus!
