//! The golden-file grammar, as a line-oriented state machine.
//!
//! A case starts with a header line `[name]`, holds parameter blocks — a
//! header line `[param]`, the raw value lines, then a line whose trimmed
//! content starts with the parameter marker (eleven `-`) — and ends with a
//! line whose trimmed content starts with the case marker (eleven `=`).
//! Marker detection is by prefix, not equality, and that permissiveness is
//! deliberate.  Blank lines between cases and between parameter blocks are
//! skipped; while a parameter is open every line, blank or not, belongs to
//! its value.  A non-header where a header is expected, a header without a
//! name, or input that ends inside a case is a fatal format error.

use vstd::prelude::*;

use crate::case::CaseView;
use crate::case::TestCase;
use crate::params::distinct_keys;
use crate::params::lemma_lookup_at;
use crate::params::lemma_lookup_none;
use crate::params::lemma_set_value_at;
use crate::params::set_value;
use crate::params::store;
use crate::params::value_or_empty;
use crate::text::lines_of;
use crate::text::str_eq;
use crate::text::str_views;
use crate::text::split_lines;
use crate::text::trim;
use crate::text::trimmed;

verus! {

/// A line whose first eleven characters are all `m`.
pub open spec fn marker_line(t: Seq<char>, m: char) -> bool {
    t.len() >= 11 && forall|k: int| 0 <= k < 11 ==> #[trigger] t[k] == m
}

/// A bracketed header line with a non-empty name: `[` + name + `]`.
pub open spec fn header_line(t: Seq<char>) -> bool {
    t.len() >= 3 && t[0] == '[' && t[t.len() - 1] == ']'
}

/// The name inside a header line.
pub open spec fn header_name(t: Seq<char>) -> Seq<char> {
    t.subrange(1, t.len() - 1)
}

/// Whether the first eleven characters of `t` are all `m`.
pub fn marker_check(t: &str, m: char) -> (b: bool)
    ensures
        b == marker_line(t@, m),
{
    let n = t.unicode_len();
    if n < 11 {
        return false;
    }
    let mut k: usize = 0;
    while k < 11
        invariant
            k <= 11,
            11 <= n == t@.len(),
            forall|j: int| 0 <= j < k ==> #[trigger] t@[j] == m,
        decreases 11 - k,
    {
        if t.get_char(k) != m {
            return false;
        }
        k = k + 1;
    }
    true
}

/// Whether `t` is a bracketed header line with a non-empty name.
pub fn header_check(t: &str) -> (b: bool)
    ensures
        b == header_line(t@),
{
    let n = t.unicode_len();
    n >= 3 && t.get_char(0) == '[' && t.get_char(n - 1) == ']'
}

/// The name inside a header line.
pub fn header_name_of(t: &str) -> (r: String)
    requires
        header_line(t@),
    ensures
        r@ == header_name(t@),
{
    let n = t.unicode_len();
    t.substring_char(1, n - 1).to_owned()
}

/// Where the parser stands between two lines.
#[verifier::ext_equal]
pub enum Mode {
    /// Between cases, looking for the next case header.
    Seek,
    /// Inside a case, no parameter block open.
    Body { name: Seq<char>, params: Seq<(Seq<char>, Seq<char>)> },
    /// Inside a case with parameter `open`'s value accumulating.
    Value { name: Seq<char>, params: Seq<(Seq<char>, Seq<char>)>, open: Seq<char> },
    /// A line broke the grammar; holds its trimmed content.
    Bad { line: Seq<char> },
}

/// Parser state: the cases completed so far and the current mode.
#[verifier::ext_equal]
pub struct PState {
    pub done: Seq<CaseView>,
    pub mode: Mode,
}

/// The state the parser starts in.
pub open spec fn init_state() -> PState {
    PState { done: Seq::empty(), mode: Mode::Seek }
}

/// One line of input, consumed in one step.
pub open spec fn step(st: PState, line: Seq<char>) -> PState {
    let t = trim(line);
    match st.mode {
        Mode::Seek => {
            if t.len() == 0 {
                st
            } else if header_line(t) {
                PState {
                    done: st.done,
                    mode: (Mode::Body { name: header_name(t), params: Seq::empty() }),
                }
            } else {
                PState { done: st.done, mode: (Mode::Bad { line: t }) }
            }
        },
        Mode::Body { name, params } => {
            if marker_line(t, '=') {
                PState {
                    done: st.done.push(
                        (CaseView { name, params, n_parsed: params.len(), diffs: Seq::empty() }),
                    ),
                    mode: Mode::Seek,
                }
            } else if t.len() == 0 {
                st
            } else if header_line(t) {
                let p = header_name(t);
                PState {
                    done: st.done,
                    mode: (Mode::Value { name, params: store(params, p, Seq::empty()), open: p }),
                }
            } else {
                PState { done: st.done, mode: (Mode::Bad { line: t }) }
            }
        },
        Mode::Value { name, params, open } => {
            if marker_line(t, '-') {
                // the block closes: strip the one trailing newline that
                // line-based reading introduced
                let v = value_or_empty(params, open);
                let cut = if v.len() == 0 {
                    v
                } else {
                    v.drop_last()
                };
                PState {
                    done: st.done,
                    mode: (Mode::Body { name, params: set_value(params, open, cut) }),
                }
            } else {
                PState {
                    done: st.done,
                    mode: (Mode::Value {
                        name,
                        params: set_value(params, open, value_or_empty(params, open) + line),
                        open,
                    }),
                }
            }
        },
        Mode::Bad { .. } => st,
    }
}

/// Consume all of `lines` from state `st`.
pub open spec fn run(lines: Seq<Seq<char>>, st: PState) -> PState
    decreases lines.len(),
{
    if lines.len() == 0 {
        st
    } else {
        run(lines.drop_first(), step(st, lines.first()))
    }
}

/// What parsing an input yields.
pub enum ParseResult {
    /// The whole input obeyed the grammar: the cases, in file order.
    Cases(Seq<CaseView>),
    /// A line broke the grammar; holds its trimmed content.
    BadLine(Seq<char>),
    /// The input ended inside a case body.
    Truncated,
}

/// Parse a sequence of lines.
pub open spec fn parse_lines(lines: Seq<Seq<char>>) -> ParseResult {
    let fin = run(lines, init_state());
    match fin.mode {
        Mode::Seek => ParseResult::Cases(fin.done),
        Mode::Bad { line } => ParseResult::BadLine(line),
        _ => ParseResult::Truncated,
    }
}

/// Parse a whole text.
pub open spec fn parse_text(text: Seq<char>) -> ParseResult {
    parse_lines(lines_of(text))
}

/// Running from an error state changes nothing.
pub proof fn lemma_run_bad(lines: Seq<Seq<char>>, st: PState)
    requires
        st.mode is Bad,
    ensures
        run(lines, st) == st,
    decreases lines.len(),
{
    if lines.len() > 0 {
        lemma_run_bad(lines.drop_first(), st);
    }
}

/// Consuming a concatenation is consuming the parts in turn.
pub proof fn lemma_run_app(l1: Seq<Seq<char>>, l2: Seq<Seq<char>>, st: PState)
    ensures
        run(l1 + l2, st) == run(l2, run(l1, st)),
    decreases l1.len(),
{
    if l1.len() == 0 {
        assert(l1 + l2 =~= l2);
    } else {
        assert((l1 + l2).first() == l1.first());
        assert((l1 + l2).drop_first() =~= l1.drop_first() + l2);
        lemma_run_app(l1.drop_first(), l2, step(st, l1.first()));
    }
}

/// One step off the front of the remaining lines.
pub proof fn lemma_run_skip(lines: Seq<Seq<char>>, i: int, st: PState)
    requires
        0 <= i < lines.len(),
    ensures
        run(lines.skip(i), st) == run(lines.skip(i + 1), step(st, lines[i])),
{
    assert(lines.skip(i).first() == lines[i]);
    assert(lines.skip(i).drop_first() =~= lines.skip(i + 1));
}

/// A format error: the file does not obey the grammar.  Parsing aborts at
/// the first such error; no case is handed to the test logic.
#[derive(Clone, Debug)]
pub enum FormatError {
    /// A line stood where a header or separator was expected but was
    /// neither; holds the line's trimmed content for diagnostics.
    BadLine(String),
    /// The input ended inside a case body.
    UnexpectedEnd,
}

/// Views of a sequence of cases.
pub open spec fn case_views(cases: Seq<TestCase>) -> Seq<CaseView> {
    Seq::new(cases.len(), |i: int| cases[i]@)
}

/// Views of a parameter vector.
pub open spec fn param_views(ps: Seq<(String, String)>) -> Seq<(Seq<char>, Seq<char>)> {
    Seq::new(ps.len(), |i: int| (ps[i].0@, ps[i].1@))
}

/// The mode the executable parser's locals stand for.
pub open spec fn mode_view(
    in_case: bool,
    name: Seq<char>,
    params: Seq<(String, String)>,
    open_idx: Option<usize>,
) -> Mode {
    if !in_case {
        Mode::Seek
    } else {
        match open_idx {
            Option::None => Mode::Body { name, params: param_views(params) },
            Option::Some(j) => Mode::Value {
                name,
                params: param_views(params),
                open: param_views(params)[j as int].0,
            },
        }
    }
}

/// The index of the first binding named `key`, if any.
fn find_param(params: &Vec<(String, String)>, key: &str) -> (r: Option<usize>)
    ensures
        match r {
            Some(j) => j < params@.len() && param_views(params@)[j as int].0 == key@ && forall|
                k: int,
            | 0 <= k < j ==> (#[trigger] param_views(params@)[k].0) != key@,
            None => forall|k: int|
                0 <= k < params@.len() ==> (#[trigger] param_views(params@)[k].0) != key@,
        },
{
    let n = params.len();
    let mut i: usize = 0;
    while i < n
        invariant
            i <= n,
            n == params@.len(),
            forall|k: int| 0 <= k < i ==> (#[trigger] param_views(params@)[k].0) != key@,
        decreases n - i,
    {
        if str_eq(params[i].0.as_str(), key) {
            return Some(i);
        }
        i = i + 1;
    }
    None
}

/// The parser: turns a file's text into its cases, in file order, or
/// reports the first grammar violation.  Every returned case is well
/// formed, its diff list is empty, and all its bindings come from the file.
pub fn parse_cases(text: &str) -> (r: Result<Vec<TestCase>, FormatError>)
    ensures
        (match parse_text(text@) {
            ParseResult::Cases(cs) => r matches Ok(v) && case_views(v@) == cs,
            ParseResult::BadLine(t) => r matches Err(FormatError::BadLine(s)) && s@ == t,
            ParseResult::Truncated => r matches Err(e) && e is UnexpectedEnd,
        }),
        r matches Ok(v) ==> forall|i: int|
            0 <= i < v@.len() ==> (#[trigger] case_views(v@)[i]).wf() && case_views(v@)[i].n_parsed
                == case_views(v@)[i].params.len() && case_views(v@)[i].diffs.len() == 0,
{
    let lines = split_lines(text);
    let ghost all: Seq<Seq<char>> = str_views(lines@);
    let mut cases: Vec<TestCase> = Vec::new();
    let mut in_case = false;
    let mut name = String::new();
    let mut params: Vec<(String, String)> = Vec::new();
    let mut open_idx: Option<usize> = None;
    let mut i: usize = 0;
    proof {
        assert(all.skip(0) =~= all);
        assert(case_views(cases@) =~= Seq::<CaseView>::empty());
        assert(PState { done: case_views(cases@), mode: mode_view(in_case, name@, params@, open_idx) }
            =~= init_state());
    }
    while i < lines.len()
        invariant
            i <= lines@.len(),
            all == str_views(lines@),
            all == lines_of(text@),
            run(all, init_state()) == run(
                all.skip(i as int),
                PState {
                    done: case_views(cases@),
                    mode: mode_view(in_case, name@, params@, open_idx),
                },
            ),
            !in_case ==> params@.len() == 0 && open_idx is None,
            in_case ==> name@.len() > 0,
            distinct_keys(param_views(params@)),
            match open_idx {
                Some(j) => in_case && j < params@.len() && (forall|k: int|
                    0 <= k < j ==> (#[trigger] param_views(params@)[k].0) != param_views(
                        params@,
                    )[j as int].0),
                None => true,
            },
            forall|k: int|
                0 <= k < cases@.len() ==> (#[trigger] case_views(cases@)[k]).wf() && case_views(
                    cases@,
                )[k].n_parsed == case_views(cases@)[k].params.len() && case_views(
                    cases@,
                )[k].diffs.len() == 0,
        decreases lines@.len() - i,
    {
        let ghost pre_state = PState {
            done: case_views(cases@),
            mode: mode_view(in_case, name@, params@, open_idx),
        };
        let ghost line_view = all[i as int];
        proof {
            lemma_run_skip(all, i as int, pre_state);
        }
        let t = trimmed(lines[i].as_str());
        if !in_case {
            if t.as_str().is_empty() {
                // a blank line between cases is skipped
                proof {
                    assert(step(pre_state, line_view) =~= pre_state);
                }
            } else if header_check(t.as_str()) {
                name = header_name_of(t.as_str());
                in_case = true;
                proof {
                    assert(param_views(params@) =~= Seq::<(Seq<char>, Seq<char>)>::empty());
                    assert(step(pre_state, line_view) =~= (PState {
                        done: case_views(cases@),
                        mode: mode_view(in_case, name@, params@, open_idx),
                    }));
                }
            } else {
                proof {
                    assert(line_view == lines@[i as int]@);
                    assert(step(pre_state, line_view).mode == (Mode::Bad { line: trim(line_view) }));
                    lemma_run_bad(all.skip(i as int + 1), step(pre_state, line_view));
                    assert(run(all, init_state()) == step(pre_state, line_view));
                    assert(parse_text(text@) == ParseResult::BadLine(trim(line_view)));
                }
                return Err(FormatError::BadLine(t));
            }
        } else if let Some(j) = open_idx {
            let ghost pv = param_views(params@);
            let ghost open_key = pv[j as int].0;
            if marker_check(t.as_str(), '-') {
                let (key, val) = params.remove(j);
                let m = val.as_str().unicode_len();
                let cut = if m > 0 {
                    val.as_str().substring_char(0, m - 1).to_owned()
                } else {
                    val
                };
                params.insert(j, (key, cut));
                open_idx = None;
                proof {
                    lemma_lookup_at(pv, open_key, j as int);
                    let v = value_or_empty(pv, open_key);
                    let nv = if v.len() == 0 {
                        v
                    } else {
                        v.drop_last()
                    };
                    lemma_set_value_at(pv, open_key, nv, j as int);
                    assert(param_views(params@) =~= pv.update(j as int, (open_key, nv)));
                    assert(param_views(params@) =~= set_value(pv, open_key, nv));
                    assert forall|a: int, b: int|
                        0 <= a < b < param_views(params@).len() implies (#[trigger] param_views(
                        params@,
                    )[a].0) != (#[trigger] param_views(params@)[b].0) by {
                        assert(param_views(params@)[a].0 == pv[a].0);
                        assert(param_views(params@)[b].0 == pv[b].0);
                    }
                    assert(step(pre_state, line_view) =~= (PState {
                        done: case_views(cases@),
                        mode: mode_view(in_case, name@, params@, open_idx),
                    }));
                }
            } else {
                let (key, mut val) = params.remove(j);
                val.append(lines[i].as_str());
                params.insert(j, (key, val));
                proof {
                    lemma_lookup_at(pv, open_key, j as int);
                    let nv = value_or_empty(pv, open_key) + line_view;
                    lemma_set_value_at(pv, open_key, nv, j as int);
                    assert(param_views(params@) =~= pv.update(j as int, (open_key, nv)));
                    assert(param_views(params@) =~= set_value(pv, open_key, nv));
                    assert forall|a: int, b: int|
                        0 <= a < b < param_views(params@).len() implies (#[trigger] param_views(
                        params@,
                    )[a].0) != (#[trigger] param_views(params@)[b].0) by {
                        assert(param_views(params@)[a].0 == pv[a].0);
                        assert(param_views(params@)[b].0 == pv[b].0);
                    }
                    assert(param_views(params@)[j as int].0 == open_key);
                    assert(step(pre_state, line_view) =~= (PState {
                        done: case_views(cases@),
                        mode: mode_view(in_case, name@, params@, open_idx),
                    }));
                }
            }
        } else {
            if marker_check(t.as_str(), '=') {
                let ghost gname = name@;
                let ghost gparams = param_views(params@);
                let k = params.len();
                let done_case = TestCase { name, params, n_parsed: k, diffs: Vec::new() };
                proof {
                    assert(done_case@ =~= (CaseView {
                        name: gname,
                        params: gparams,
                        n_parsed: gparams.len(),
                        diffs: Seq::empty(),
                    }));
                }
                cases.push(done_case);
                name = String::new();
                params = Vec::new();
                in_case = false;
                open_idx = None;
                proof {
                    assert(case_views(cases@) =~= pre_state.done.push(
                        (CaseView {
                            name: gname,
                            params: gparams,
                            n_parsed: gparams.len(),
                            diffs: Seq::empty(),
                        }),
                    ));
                    assert(step(pre_state, line_view) =~= (PState {
                        done: case_views(cases@),
                        mode: mode_view(in_case, name@, params@, open_idx),
                    }));
                }
            } else if t.as_str().is_empty() {
                // a blank line inside a case body is skipped
                proof {
                    assert(step(pre_state, line_view) =~= pre_state);
                }
            } else if header_check(t.as_str()) {
                let pname = header_name_of(t.as_str());
                let ghost pv = param_views(params@);
                match find_param(&params, pname.as_str()) {
                    Some(j) => {
                        let (key, _prior) = params.remove(j);
                        params.insert(j, (key, String::new()));
                        open_idx = Some(j);
                        proof {
                            lemma_lookup_at(pv, pname@, j as int);
                            lemma_set_value_at(pv, pname@, Seq::empty(), j as int);
                            assert(param_views(params@) =~= pv.update(
                                j as int,
                                (pname@, Seq::empty()),
                            ));
                            assert(param_views(params@) =~= set_value(pv, pname@, Seq::empty()));
                            assert(param_views(params@) =~= store(pv, pname@, Seq::empty()));
                            assert forall|a: int, b: int|
                                0 <= a < b < param_views(params@).len() implies (
                            #[trigger] param_views(params@)[a].0) != (#[trigger] param_views(
                                params@,
                            )[b].0) by {
                                assert(param_views(params@)[a].0 == pv[a].0);
                                assert(param_views(params@)[b].0 == pv[b].0);
                            }
                            assert(param_views(params@)[j as int].0 == pname@);
                            assert(step(pre_state, line_view) =~= (PState {
                                done: case_views(cases@),
                                mode: mode_view(in_case, name@, params@, open_idx),
                            }));
                        }
                    },
                    None => {
                        let ghost gp = pname@;
                        params.push((pname, String::new()));
                        open_idx = Some(params.len() - 1);
                        proof {
                            lemma_lookup_none(pv, gp);
                            assert(param_views(params@) =~= pv.push((gp, Seq::empty())));
                            assert(param_views(params@) =~= store(pv, gp, Seq::empty()));
                            assert forall|a: int, b: int|
                                0 <= a < b < param_views(params@).len() implies (
                            #[trigger] param_views(params@)[a].0) != (#[trigger] param_views(
                                params@,
                            )[b].0) by {
                                if b < pv.len() {
                                    assert(param_views(params@)[a].0 == pv[a].0);
                                    assert(param_views(params@)[b].0 == pv[b].0);
                                } else {
                                    assert(param_views(params@)[b].0 == gp);
                                    assert(param_views(params@)[a].0 == pv[a].0);
                                }
                            }
                            assert(param_views(params@)[params@.len() - 1].0 == gp);
                            assert(step(pre_state, line_view) =~= (PState {
                                done: case_views(cases@),
                                mode: mode_view(in_case, name@, params@, open_idx),
                            }));
                        }
                    },
                }
            } else {
                proof {
                    assert(line_view == lines@[i as int]@);
                    assert(step(pre_state, line_view).mode == (Mode::Bad { line: trim(line_view) }));
                    lemma_run_bad(all.skip(i as int + 1), step(pre_state, line_view));
                    assert(run(all, init_state()) == step(pre_state, line_view));
                    assert(parse_text(text@) == ParseResult::BadLine(trim(line_view)));
                }
                return Err(FormatError::BadLine(t));
            }
        }
        i = i + 1;
    }
    proof {
        assert(all.skip(i as int) =~= Seq::<Seq<char>>::empty());
    }
    if in_case {
        return Err(FormatError::UnexpectedEnd);
    }
    Ok(cases)
}

} // verus!
