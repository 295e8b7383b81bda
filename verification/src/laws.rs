//! The engine's laws, proved over the same spec functions its contracts use:
//! what the writer persists the parser reproduces, everything the parser
//! yields the writer can persist faithfully, a rebaselined file passes the
//! next identical run, and blank input is a valid, empty file.

use vstd::prelude::*;

use crate::case::CaseView;
use crate::case::apply_cau;
use crate::params::distinct_keys;
use crate::params::lemma_lookup_at;
use crate::params::lemma_lookup_none;
use crate::params::lemma_lookup_store;
use crate::params::lemma_set_value_at;
use crate::params::lemma_set_value_same;
use crate::params::lemma_set_value_shape;
use crate::params::lemma_store_distinct;
use crate::params::lookup;
use crate::params::set_value;
use crate::params::store;
use crate::params::value_or_empty;
use crate::parse::Mode;
use crate::parse::header_line;
use crate::parse::header_name;
use crate::parse::PState;
use crate::parse::ParseResult;
use crate::parse::init_state;
use crate::parse::lemma_run_app;
use crate::parse::marker_line;
use crate::parse::parse_text;
use crate::parse::run;
use crate::parse::step;
use crate::render::case_text;
use crate::render::param_text;
use crate::render::params_text;
use crate::render::render_text;
use crate::report::report_text;
use crate::text::is_space;
use crate::text::joined;
use crate::text::lemma_lines_concat;
use crate::text::lemma_lines_join;
use crate::text::lemma_lines_single;
use crate::text::lemma_lines_space;
use crate::text::lemma_trim_all_space;
use crate::text::lemma_trim_line;
use crate::text::lemma_trim_no_nl;
use crate::text::lines_of;
use crate::text::trim;

verus! {

/// A usable name for a case or parameter: non-empty, free of newlines.
pub open spec fn name_ok(s: Seq<char>) -> bool {
    s.len() > 0 && forall|k: int| 0 <= k < s.len() ==> #[trigger] s[k] != '\n'
}

/// A value the writer can persist faithfully: none of its lines, once the
/// writer adds the closing newline, reads as a parameter marker.
pub open spec fn value_ok(v: Seq<char>) -> bool {
    forall|i: int|
        0 <= i < lines_of(v + seq!['\n']).len() ==> !marker_line(
            trim(#[trigger] lines_of(v + seq!['\n'])[i]),
            '-',
        )
}

/// What the writer persists of a case and the parser hands back: the
/// serialized bindings only; diff lists are run-scoped and not persisted.
pub open spec fn parsed_form(c: CaseView) -> CaseView {
    CaseView {
        name: c.name,
        params: c.params.take(c.n_parsed as int),
        n_parsed: c.n_parsed,
        diffs: Seq::empty(),
    }
}

/// A case the writer can persist so that the parser reproduces it.
pub open spec fn serializable(c: CaseView) -> bool {
    &&& name_ok(c.name)
    &&& c.n_parsed <= c.params.len()
    &&& distinct_keys(c.params.take(c.n_parsed as int))
    &&& forall|i: int|
        0 <= i < c.n_parsed ==> name_ok((#[trigger] c.params[i]).0) && value_ok(c.params[i].1)
}

/// A whole pass of test logic over one case, modelled as the
/// compare-and-update calls it makes, applied left to right.
pub open spec fn apply_ops(c: CaseView, ops: Seq<(Seq<char>, Seq<char>)>) -> CaseView
    decreases ops.len(),
{
    if ops.len() == 0 {
        c
    } else {
        apply_ops(apply_cau(c, ops[0].0, ops[0].1), ops.drop_first())
    }
}

/// Parameters the pass never writes keep their binding.
proof fn lemma_ops_frame(c: CaseView, ops: Seq<(Seq<char>, Seq<char>)>, k: Seq<char>)
    requires
        forall|i: int| 0 <= i < ops.len() ==> (#[trigger] ops[i]).0 != k,
    ensures
        lookup(apply_ops(c, ops).params, k) == lookup(c.params, k),
    decreases ops.len(),
{
    if ops.len() > 0 {
        let c1 = apply_cau(c, ops[0].0, ops[0].1);
        lemma_lookup_store(c.params, ops[0].0, ops[0].1, k);
        assert forall|i: int| 0 <= i < ops.drop_first().len() implies (#[trigger] ops.drop_first()[i]).0
            != k by {
            assert(ops.drop_first()[i] == ops[i + 1]);
        }
        lemma_ops_frame(c1, ops.drop_first(), k);
    }
}

/// After a pass that writes each parameter at most once, every written
/// parameter holds the value the pass computed; nothing else changed shape.
proof fn lemma_ops_values(c: CaseView, ops: Seq<(Seq<char>, Seq<char>)>)
    requires
        distinct_keys(ops),
        forall|i: int| 0 <= i < ops.len() ==> lookup(c.params, (#[trigger] ops[i]).0) is Some,
    ensures
        apply_ops(c, ops).name == c.name,
        apply_ops(c, ops).n_parsed == c.n_parsed,
        apply_ops(c, ops).params.len() == c.params.len(),
        forall|i: int|
            0 <= i < ops.len() ==> lookup(apply_ops(c, ops).params, (#[trigger] ops[i]).0) == Some(
                ops[i].1,
            ),
    decreases ops.len(),
{
    if ops.len() > 0 {
        let c1 = apply_cau(c, ops[0].0, ops[0].1);
        lemma_set_value_shape(c.params, ops[0].0, ops[0].1);
        assert(c1.params == set_value(c.params, ops[0].0, ops[0].1));
        assert forall|i: int|
            0 <= i < ops.drop_first().len() implies lookup(
            c1.params,
            (#[trigger] ops.drop_first()[i]).0,
        ) is Some by {
            assert(ops.drop_first()[i] == ops[i + 1]);
            assert(ops[i + 1].0 != ops[0].0);
            lemma_lookup_store(c.params, ops[0].0, ops[0].1, ops[i + 1].0);
        }
        assert forall|a: int, b: int|
            0 <= a < b < ops.drop_first().len() implies (#[trigger] ops.drop_first()[a]).0 != (
        #[trigger] ops.drop_first()[b]).0 by {
            assert(ops.drop_first()[a] == ops[a + 1]);
            assert(ops.drop_first()[b] == ops[b + 1]);
        }
        lemma_ops_values(c1, ops.drop_first());
        lemma_lookup_store(c.params, ops[0].0, ops[0].1, ops[0].0);
        assert forall|i: int|
            0 <= i < ops.drop_first().len() implies (#[trigger] ops.drop_first()[i]).0
            != ops[0].0 by {
            assert(ops.drop_first()[i] == ops[i + 1]);
        }
        lemma_ops_frame(c1, ops.drop_first(), ops[0].0);
        assert forall|i: int|
            0 <= i < ops.len() implies lookup(apply_ops(c, ops).params, (#[trigger] ops[i]).0)
            == Some(ops[i].1) by {
            if i > 0 {
                assert(ops.drop_first()[i - 1] == ops[i]);
            }
        }
    }
}

/// A pass that computes, for every parameter it writes, exactly the value
/// already stored changes nothing and records no mismatch.
proof fn lemma_same_run(c: CaseView, ops: Seq<(Seq<char>, Seq<char>)>)
    requires
        forall|i: int|
            0 <= i < ops.len() ==> lookup(c.params, (#[trigger] ops[i]).0) == Some(ops[i].1),
    ensures
        apply_ops(c, ops) == c,
    decreases ops.len(),
{
    if ops.len() > 0 {
        assert(value_or_empty(c.params, ops[0].0) == ops[0].1);
        lemma_set_value_same(c.params, ops[0].0, ops[0].1);
        assert(apply_cau(c, ops[0].0, ops[0].1) =~= c);
        assert forall|i: int|
            0 <= i < ops.drop_first().len() implies lookup(
            c.params,
            (#[trigger] ops.drop_first()[i]).0,
        ) == Some(ops.drop_first()[i].1) by {
            assert(ops.drop_first()[i] == ops[i + 1]);
        }
        lemma_same_run(c, ops.drop_first());
    }
}

/// Idempotence of update: take a parsed case (every binding serialized, as
/// the parser yields) and test logic that writes each parameter at most
/// once, each with a header already in the file.  After one pass the stored
/// values are the computed ones; once the file is rebaselined to that state,
/// a second pass that computes the same values records no mismatch and
/// leaves every binding as it was.
pub proof fn lemma_update_idempotent(c: CaseView, ops: Seq<(Seq<char>, Seq<char>)>)
    requires
        c.n_parsed == c.params.len(),
        distinct_keys(ops),
        forall|i: int| 0 <= i < ops.len() ==> lookup(c.params, (#[trigger] ops[i]).0) is Some,
    ensures
        apply_ops(parsed_form(apply_ops(c, ops)), ops) == parsed_form(apply_ops(c, ops)),
{
    let c1 = apply_ops(c, ops);
    lemma_ops_values(c, ops);
    let c2 = parsed_form(c1);
    assert(c2.params =~= c1.params);
    assert forall|i: int|
        0 <= i < ops.len() implies lookup(c2.params, (#[trigger] ops[i]).0) == Some(ops[i].1) by {
        assert(lookup(c1.params, ops[i].0) == Some(ops[i].1));
    }
    lemma_same_run(c2, ops);
}

/// Blank input is valid: a text of space characters parses to no cases, and
/// the report over no cases is empty, so such a run succeeds trivially.
pub proof fn lemma_blank_input(text: Seq<char>)
    requires
        forall|k: int| 0 <= k < text.len() ==> is_space(#[trigger] text[k]),
    ensures
        parse_text(text) == ParseResult::Cases(Seq::<CaseView>::empty()),
        report_text(Seq::<CaseView>::empty()).len() == 0,
{
    lemma_lines_space(text);
    lemma_run_blank(lines_of(text), init_state());
}

/// The parser, seeking a header, skips any run of blank lines.
proof fn lemma_run_blank(ls: Seq<Seq<char>>, st: PState)
    requires
        st.mode is Seek,
        forall|i: int, k: int|
            0 <= i < ls.len() && 0 <= k < ls[i].len() ==> is_space(#[trigger] ls[i][k]),
    ensures
        run(ls, st) == st,
    decreases ls.len(),
{
    if ls.len() > 0 {
        assert(ls.first() == ls[0]);
        lemma_trim_all_space(ls.first());
        assert(step(st, ls.first()) == st);
        assert forall|i: int, k: int|
            0 <= i < ls.drop_first().len() && 0 <= k < ls.drop_first()[i].len() implies is_space(
            #[trigger] ls.drop_first()[i][k],
        ) by {
            assert(ls.drop_first()[i] == ls[i + 1]);
        }
        lemma_run_blank(ls.drop_first(), st);
    }
}

/// A value mid-accumulation: the lines appended so far, each ending with
/// the newline that line-based reading kept.
spec fn acc_ok(v: Seq<char>) -> bool {
    v.len() == 0 || (v.last() == '\n' && value_ok(v.drop_last()))
}

/// Parameters a case body has closed so far: distinct, usable names, and
/// values the writer could persist.
spec fn ser_body(name: Seq<char>, params: Seq<(Seq<char>, Seq<char>)>) -> bool {
    &&& name_ok(name)
    &&& distinct_keys(params)
    &&& forall|i: int| 0 <= i < params.len() ==> name_ok((#[trigger] params[i]).0)
    &&& forall|i: int| 0 <= i < params.len() ==> value_ok((#[trigger] params[i]).1)
}

/// The parser only ever accumulates serializable material.
spec fn ser_mode(m: Mode) -> bool {
    match m {
        Mode::Seek => true,
        Mode::Body { name, params } => ser_body(name, params),
        Mode::Value { name, params, open } => {
            &&& name_ok(name)
            &&& distinct_keys(params)
            &&& lookup(params, open) is Some
            &&& forall|i: int| 0 <= i < params.len() ==> name_ok((#[trigger] params[i]).0)
            &&& forall|i: int|
                0 <= i < params.len() && params[i].0 != open ==> value_ok(
                    (#[trigger] params[i]).1,
                )
            &&& forall|i: int|
                0 <= i < params.len() && params[i].0 == open ==> acc_ok((#[trigger] params[i]).1)
        },
        Mode::Bad { .. } => true,
    }
}

/// Cases the parser has completed: serializable, and already in their
/// persisted form.
spec fn ser_done(done: Seq<CaseView>) -> bool {
    forall|i: int|
        0 <= i < done.len() ==> serializable(#[trigger] done[i]) && parsed_form(done[i]) == done[i]
}

/// The empty value can be persisted.
proof fn lemma_value_ok_empty()
    ensures
        value_ok(Seq::<char>::empty()),
{
    let one = Seq::<char>::empty() + seq!['\n'];
    assert(one.len() == 1);
    assert(one[0] == '\n');
    lemma_lines_single(one);
    assert forall|i: int| 0 <= i < lines_of(one).len() implies !marker_line(
        trim(#[trigger] lines_of(one)[i]),
        '-',
    ) by {
        assert(lines_of(one)[i] == one);
        assert forall|k: int| 0 <= k < one.len() implies is_space(#[trigger] one[k]) by {}
        lemma_trim_all_space(one);
    }
}

/// One parser step keeps the accumulated material serializable.  The one
/// step that needs the line's closing newline is appending it to an open
/// value; a line without one can only be the input's last.
proof fn lemma_ser_step(st: PState, l: Seq<char>)
    requires
        ser_done(st.done),
        ser_mode(st.mode),
        l.len() > 0,
        forall|k: int| 0 <= k < l.len() - 1 ==> #[trigger] l[k] != '\n',
    ensures
        ser_done(step(st, l).done),
        l.last() == '\n' ==> ser_mode(step(st, l).mode),
        step(st, l).mode is Seek ==> ser_mode(step(st, l).mode),
{
    let t = trim(l);
    lemma_trim_no_nl(l);
    match st.mode {
        Mode::Seek => {
            if t.len() != 0 && header_line(t) {
                assert(header_name(t).len() > 0);
                assert forall|k: int| 0 <= k < header_name(t).len() implies (#[trigger] header_name(
                    t,
                )[k]) != '\n' by {
                    assert(header_name(t)[k] == t[k + 1]);
                }
            }
        },
        Mode::Body { name, params } => {
            if marker_line(t, '=') {
                let c = CaseView { name, params, n_parsed: params.len(), diffs: Seq::empty() };
                assert(c.params.take(c.n_parsed as int) =~= params);
                assert(serializable(c));
                assert(parsed_form(c) =~= c);
                assert forall|i: int|
                    0 <= i < step(st, l).done.len() implies serializable(
                    #[trigger] step(st, l).done[i],
                ) && parsed_form(step(st, l).done[i]) == step(st, l).done[i] by {
                    if i < st.done.len() {
                        assert(step(st, l).done[i] == st.done[i]);
                    } else {
                        assert(step(st, l).done[i] == c);
                    }
                }
            } else if t.len() != 0 && header_line(t) {
                let p = header_name(t);
                assert(p.len() > 0);
                assert forall|k: int| 0 <= k < p.len() implies (#[trigger] p[k]) != '\n' by {
                    assert(p[k] == t[k + 1]);
                }
                lemma_value_ok_empty();
                lemma_store_distinct(params, p, Seq::empty());
                lemma_lookup_store(params, p, Seq::empty(), p);
                let nps = store(params, p, Seq::empty());
                if lookup(params, p) is Some {
                    lemma_set_value_shape(params, p, Seq::empty());
                    assert forall|i: int|
                        0 <= i < nps.len() && nps[i].0 == p implies acc_ok(
                        (#[trigger] nps[i]).1,
                    ) by {
                        assert(params[i].0 == p);
                        assert forall|k: int| 0 <= k < i implies (#[trigger] params[k].0)
                            != p by {
                            assert(params[k].0 != params[i].0);
                        }
                        lemma_set_value_at(params, p, Seq::empty(), i);
                        assert(nps[i].1 =~= Seq::<char>::empty());
                    }
                    assert forall|i: int|
                        0 <= i < nps.len() && nps[i].0 != p implies value_ok(
                        (#[trigger] nps[i]).1,
                    ) by {
                        assert(nps[i] == params[i]);
                    }
                } else {
                    lemma_lookup_none(params, p);
                    assert forall|i: int|
                        0 <= i < nps.len() && nps[i].0 != p implies value_ok(
                        (#[trigger] nps[i]).1,
                    ) by {
                        assert(nps[i] == params[i]);
                    }
                    assert forall|i: int| 0 <= i < nps.len() implies name_ok(
                        (#[trigger] nps[i]).0,
                    ) by {
                        if i < params.len() {
                            assert(nps[i] == params[i]);
                        }
                    }
                }
            }
        },
        Mode::Value { name, params, open } => {
            lemma_lookup_none(params, open);
            let j = choose|j: int| 0 <= j < params.len() && (#[trigger] params[j].0) == open;
            assert forall|k: int| 0 <= k < j implies (#[trigger] params[k].0) != open by {
                assert(params[k].0 != params[j].0);
            }
            lemma_lookup_at(params, open, j);
            let v = params[j].1;
            assert(acc_ok(v));
            if marker_line(t, '-') {
                let cut = if v.len() == 0 {
                    v
                } else {
                    v.drop_last()
                };
                if v.len() == 0 {
                    lemma_value_ok_empty();
                    assert(cut =~= Seq::<char>::empty());
                    assert(value_ok(cut));
                }
                lemma_set_value_at(params, open, cut, j);
                let nps = set_value(params, open, cut);
                assert(nps =~= params.update(j, (params[j].0, cut)));
                assert forall|i: int, k: int|
                    0 <= i < nps.len() && 0 <= k < nps.len() && i < k implies (
                #[trigger] nps[i].0) != (#[trigger] nps[k].0) by {
                    assert(nps[i].0 == params[i].0);
                    assert(nps[k].0 == params[k].0);
                }
                assert forall|i: int| 0 <= i < nps.len() implies value_ok(
                    (#[trigger] nps[i]).1,
                ) by {
                    if i != j {
                        assert(nps[i] == params[i]);
                        assert(params[i].0 != open);
                    }
                }
            } else {
                if l.last() == '\n' {
                    let grown = v + l;
                    lemma_lines_single(l);
                    lemma_lines_concat(if v.len() == 0 {
                        v
                    } else {
                        v
                    }, l);
                    assert(lines_of(grown) =~= lines_of(v) + seq![l]);
                    if v.len() > 0 {
                        assert(v.drop_last() + seq!['\n'] =~= v);
                    }
                    assert(grown.drop_last() + seq!['\n'] =~= grown);
                    assert forall|i: int|
                        0 <= i < lines_of(grown.drop_last() + seq!['\n']).len() implies !marker_line(
                        trim(#[trigger] lines_of(grown.drop_last() + seq!['\n'])[i]),
                        '-',
                    ) by {
                        assert(lines_of(grown.drop_last() + seq!['\n'])[i] == lines_of(grown)[i]);
                        if i < lines_of(v).len() {
                            assert(lines_of(grown)[i] == lines_of(v)[i]);
                            if v.len() > 0 {
                                assert(lines_of(v.drop_last() + seq!['\n'])[i] == lines_of(v)[i]);
                            }
                        } else {
                            assert(lines_of(grown)[i] == l);
                        }
                    }
                    assert(acc_ok(grown));
                    lemma_set_value_at(params, open, value_or_empty(params, open) + l, j);
                    let nps = set_value(params, open, value_or_empty(params, open) + l);
                    assert(nps =~= params.update(j, (params[j].0, grown)));
                    assert forall|i: int, k: int|
                        0 <= i < nps.len() && 0 <= k < nps.len() && i < k implies (
                    #[trigger] nps[i].0) != (#[trigger] nps[k].0) by {
                        assert(nps[i].0 == params[i].0);
                        assert(nps[k].0 == params[k].0);
                    }
                    lemma_lookup_at(nps, open, j);
                    assert forall|i: int|
                        0 <= i < nps.len() && nps[i].0 == open implies acc_ok(
                        (#[trigger] nps[i]).1,
                    ) by {
                        if i != j {
                            assert(nps[i] == params[i]);
                            assert(params[i].0 != params[j].0);
                        }
                    }
                    assert forall|i: int|
                        0 <= i < nps.len() && nps[i].0 != open implies value_ok(
                        (#[trigger] nps[i]).1,
                    ) by {
                        assert(nps[i] == params[i]);
                    }
                }
            }
        },
        Mode::Bad { .. } => {},
    }
}

/// Running the parser over lines shaped as a line reader produces them keeps
/// every completed case serializable.
proof fn lemma_ser_run(ls: Seq<Seq<char>>, st: PState)
    requires
        ser_done(st.done),
        ser_mode(st.mode),
        forall|i: int| 0 <= i < ls.len() ==> (#[trigger] ls[i]).len() > 0,
        forall|i: int, k: int|
            0 <= i < ls.len() && 0 <= k < ls[i].len() - 1 ==> (#[trigger] ls[i][k]) != '\n',
        forall|i: int| 0 <= i < ls.len() - 1 ==> (#[trigger] ls[i]).last() == '\n',
    ensures
        run(ls, st).mode is Seek ==> ser_done(run(ls, st).done),
    decreases ls.len(),
{
    if ls.len() > 0 {
        assert(ls.first() == ls[0]);
        assert forall|k: int| 0 <= k < ls.first().len() - 1 implies (#[trigger] ls.first()[k])
            != '\n' by {
            assert(ls[0][k] != '\n');
        }
        lemma_ser_step(st, ls.first());
        let st1 = step(st, ls.first());
        if ls.len() == 1 {
            assert(run(ls.drop_first(), st1) == st1);
        } else {
            assert(ls[0].last() == '\n');
            assert forall|i: int| 0 <= i < ls.drop_first().len() implies (
            #[trigger] ls.drop_first()[i]).len() > 0 by {
                assert(ls.drop_first()[i] == ls[i + 1]);
            }
            assert forall|i: int, k: int|
                0 <= i < ls.drop_first().len() && 0 <= k < ls.drop_first()[i].len() - 1 implies (
            #[trigger] ls.drop_first()[i][k]) != '\n' by {
                assert(ls.drop_first()[i] == ls[i + 1]);
                assert(ls[i + 1][k] != '\n');
            }
            assert forall|i: int| 0 <= i < ls.drop_first().len() - 1 implies (
            #[trigger] ls.drop_first()[i]).last() == '\n' by {
                assert(ls.drop_first()[i] == ls[i + 1]);
            }
            lemma_ser_run(ls.drop_first(), st1);
        }
    }
}

/// Everything the parser yields, the writer can persist faithfully: parsed
/// cases are serializable and already in their persisted form.
pub proof fn lemma_parsed_serializable(text: Seq<char>)
    ensures
        parse_text(text) matches ParseResult::Cases(cs) ==> forall|i: int|
            0 <= i < cs.len() ==> serializable(#[trigger] cs[i]) && parsed_form(cs[i]) == cs[i],
{
    crate::text::lemma_lines_shape(text);
    lemma_ser_run(lines_of(text), init_state());
}

/// Re-baselining is stable: a file that parses, rewritten from its own
/// cases (as update mode does when the test logic changes nothing), parses
/// back to the same cases.
pub proof fn lemma_reparse_stable(text: Seq<char>)
    ensures
        parse_text(text) matches ParseResult::Cases(cs) ==> parse_text(render_text(cs))
            == ParseResult::Cases(cs),
{
    match parse_text(text) {
        ParseResult::Cases(cs) => {
            lemma_parsed_serializable(text);
            lemma_round_trip(cs);
            assert(Seq::new(cs.len(), |i: int| parsed_form(cs[i])) =~= cs);
        },
        _ => {},
    }
}

/// Consuming a single line is one step.
proof fn lemma_run_one(l: Seq<char>, st: PState)
    ensures
        run(seq![l], st) == step(st, l),
{
    assert(seq![l].first() == l);
    assert(seq![l].drop_first() =~= Seq::<Seq<char>>::empty());
    assert(run(Seq::<Seq<char>>::empty(), step(st, l)) == step(st, l));
}

/// Shape of a written header line `[name]` + newline.
proof fn lemma_hdr_lines(name: Seq<char>)
    requires
        name_ok(name),
    ensures
        lines_of("["@ + name + "]\n"@) =~= seq!["["@ + name + "]\n"@],
        trim("["@ + name + "]\n"@) =~= "["@ + name + "]"@,
        header_line(trim("["@ + name + "]\n"@)),
        header_name(trim("["@ + name + "]\n"@)) =~= name,
        !marker_line(trim("["@ + name + "]\n"@), '='),
        !marker_line(trim("["@ + name + "]\n"@), '-'),
        trim("["@ + name + "]\n"@).len() > 0,
        ("["@ + name + "]\n"@).len() > 0,
        ("["@ + name + "]\n"@).last() == '\n',
{
    reveal_strlit("[");
    reveal_strlit("]\n");
    reveal_strlit("]");
    let hdr = "["@ + name + "]\n"@;
    assert(hdr.len() == name.len() + 3);
    assert(hdr[0] == '[');
    assert(hdr[hdr.len() - 1] == '\n');
    assert(hdr[hdr.len() - 2] == ']');
    assert forall|k: int| 0 <= k < hdr.len() - 1 implies #[trigger] hdr[k] != '\n' by {
        if 1 <= k < name.len() + 1 {
            assert(hdr[k] == name[k - 1]);
        }
    }
    lemma_lines_single(hdr);
    lemma_trim_line(hdr);
    let t = trim(hdr);
    assert(t =~= "["@ + name + "]"@);
    assert(t[0] == '[');
    assert(t[t.len() - 1] == ']');
    assert(header_name(t) =~= name);
    if marker_line(t, '=') {
        assert(t[0] == '=');
    }
    if marker_line(t, '-') {
        assert(t[0] == '-');
    }
}

/// Shape of the written parameter marker line.
proof fn lemma_sep_lines()
    ensures
        lines_of("-----------\n"@) =~= seq!["-----------\n"@],
        marker_line(trim("-----------\n"@), '-'),
        "\n-----------\n"@ =~= seq!['\n'] + "-----------\n"@,
        ("-----------\n"@).last() == '\n',
{
    reveal_strlit("-----------\n");
    reveal_strlit("\n-----------\n");
    let sep = "-----------\n"@;
    assert(sep.len() == 12);
    assert forall|k: int| 0 <= k < sep.len() - 1 implies #[trigger] sep[k] != '\n' by {}
    assert(sep[11] == '\n');
    lemma_lines_single(sep);
    lemma_trim_line(sep);
    assert(trim(sep) =~= sep.drop_last());
    assert forall|k: int| 0 <= k < 11 implies #[trigger] trim(sep)[k] == '-' by {
        assert(trim(sep)[k] == sep[k]);
    }
    assert("\n-----------\n"@ =~= seq!['\n'] + sep);
}

/// Shape of the written case marker line and the blank line after it.
proof fn lemma_case_sep_lines()
    ensures
        lines_of("===========\n\n"@) =~= seq!["===========\n"@, "\n"@],
        marker_line(trim("===========\n"@), '='),
        trim("\n"@).len() == 0,
        ("===========\n\n"@).len() > 0,
        ("===========\n\n"@).last() == '\n',
{
    reveal_strlit("===========\n\n");
    reveal_strlit("===========\n");
    reveal_strlit("\n");
    let both = "===========\n\n"@;
    let sep = "===========\n"@;
    let nl = "\n"@;
    assert(both =~= sep + nl);
    assert(sep.len() == 12);
    assert forall|k: int| 0 <= k < sep.len() - 1 implies #[trigger] sep[k] != '\n' by {}
    assert(sep[11] == '\n');
    lemma_lines_single(sep);
    assert(nl.len() == 1);
    assert(nl[0] == '\n');
    lemma_lines_single(nl);
    lemma_lines_concat(sep, nl);
    assert(lines_of(both) =~= seq![sep, nl]);
    lemma_trim_line(sep);
    assert(trim(sep) =~= sep.drop_last());
    assert forall|k: int| 0 <= k < 11 implies #[trigger] trim(sep)[k] == '=' by {
        assert(trim(sep)[k] == sep[k]);
    }
    assert forall|k: int| 0 <= k < nl.len() implies is_space(#[trigger] nl[k]) by {}
    lemma_trim_all_space(nl);
}

/// Accumulating a value: while a parameter is open, every line joins its
/// value verbatim.
proof fn lemma_value_run(
    vls: Seq<Seq<char>>,
    acc: Seq<(Seq<char>, Seq<char>)>,
    name: Seq<char>,
    key: Seq<char>,
    cur: Seq<char>,
    done: Seq<CaseView>,
)
    requires
        forall|i: int| 0 <= i < vls.len() ==> !marker_line(trim(#[trigger] vls[i]), '-'),
        lookup(acc, key) is None,
    ensures
        run(
            vls,
            (PState { done, mode: (Mode::Value { name, params: acc.push((key, cur)), open: key }) }),
        ) == (PState {
            done,
            mode: (Mode::Value { name, params: acc.push((key, cur + joined(vls))), open: key }),
        }),
    decreases vls.len(),
{
    lemma_lookup_none(acc, key);
    if vls.len() == 0 {
        assert(cur + joined(vls) =~= cur);
        assert(acc.push((key, cur + joined(vls))) =~= acc.push((key, cur)));
    } else {
        let l = vls.first();
        let ps0 = acc.push((key, cur));
        assert forall|k: int| 0 <= k < acc.len() implies (#[trigger] ps0[k].0) != key by {
            assert(ps0[k] == acc[k]);
        }
        assert(ps0[acc.len() as int].0 == key);
        lemma_lookup_at(ps0, key, acc.len() as int);
        lemma_set_value_at(ps0, key, cur + l, acc.len() as int);
        assert(set_value(ps0, key, cur + l) =~= acc.push((key, cur + l)));
        let st0 = PState { done, mode: (Mode::Value { name, params: ps0, open: key }) };
        assert(step(st0, l) == PState {
            done,
            mode: (Mode::Value { name, params: acc.push((key, cur + l)), open: key }),
        });
        assert forall|i: int| 0 <= i < vls.drop_first().len() implies !marker_line(
            trim(#[trigger] vls.drop_first()[i]),
            '-',
        ) by {
            assert(vls.drop_first()[i] == vls[i + 1]);
        }
        lemma_value_run(vls.drop_first(), acc, name, key, cur + l, done);
        assert(cur + joined(vls) =~= (cur + l) + joined(vls.drop_first()));
        assert(acc.push((key, (cur + l) + joined(vls.drop_first()))) =~= acc.push(
            (key, cur + joined(vls)),
        ));
    }
}

/// One written parameter block parses back to its binding, appended.
proof fn lemma_param_run(
    p: (Seq<char>, Seq<char>),
    name: Seq<char>,
    acc: Seq<(Seq<char>, Seq<char>)>,
    done: Seq<CaseView>,
)
    requires
        name_ok(p.0),
        value_ok(p.1),
        lookup(acc, p.0) is None,
    ensures
        run(
            lines_of(param_text(p)),
            (PState { done, mode: (Mode::Body { name, params: acc }) }),
        ) == (PState { done, mode: (Mode::Body { name, params: acc.push(p) }) }),
{
    let hdr = "["@ + p.0 + "]\n"@;
    let vpart = p.1 + seq!['\n'];
    let sep = "-----------\n"@;
    lemma_hdr_lines(p.0);
    lemma_sep_lines();
    assert(param_text(p) =~= hdr + (vpart + sep));
    assert(vpart.last() == '\n');
    lemma_lines_concat(hdr, vpart + sep);
    lemma_lines_concat(vpart, sep);
    assert(lines_of(param_text(p)) =~= lines_of(hdr) + (lines_of(vpart) + lines_of(sep)));
    let st0 = PState { done, mode: (Mode::Body { name, params: acc }) };
    // the header line opens the parameter with an empty value
    let t = trim(hdr);
    lemma_run_one(hdr, st0);
    lemma_lookup_none(acc, p.0);
    assert(store(acc, p.0, Seq::empty()) == acc.push((p.0, Seq::empty())));
    let st1 = PState {
        done,
        mode: (Mode::Value { name, params: acc.push((p.0, Seq::empty())), open: p.0 }),
    };
    assert(step(st0, hdr) == st1);
    // the raw value lines accumulate verbatim
    assert forall|i: int| 0 <= i < lines_of(vpart).len() implies !marker_line(
        trim(#[trigger] lines_of(vpart)[i]),
        '-',
    ) by {
        assert(lines_of(vpart)[i] == lines_of(p.1 + seq!['\n'])[i]);
    }
    lemma_value_run(lines_of(vpart), acc, name, p.0, Seq::empty(), done);
    lemma_lines_join(vpart);
    assert(Seq::<char>::empty() + joined(lines_of(vpart)) =~= vpart);
    assert(acc.push((p.0, Seq::<char>::empty() + joined(lines_of(vpart)))) =~= acc.push(
        (p.0, vpart),
    ));
    let st2 = PState { done, mode: (Mode::Value { name, params: acc.push((p.0, vpart)), open: p.0 }) };
    // the marker closes the block, stripping the one trailing newline
    let ps2 = acc.push((p.0, vpart));
    assert forall|k: int| 0 <= k < acc.len() implies (#[trigger] ps2[k].0) != p.0 by {
        assert(ps2[k] == acc[k]);
    }
    assert(ps2[acc.len() as int].0 == p.0);
    lemma_lookup_at(ps2, p.0, acc.len() as int);
    assert(value_or_empty(ps2, p.0) == vpart);
    assert(vpart.drop_last() =~= p.1);
    lemma_set_value_at(ps2, p.0, vpart.drop_last(), acc.len() as int);
    assert(set_value(ps2, p.0, vpart.drop_last()) =~= acc.push(p));
    lemma_run_one(sep, st2);
    assert(step(st2, sep) == PState { done, mode: (Mode::Body { name, params: acc.push(p) }) });
    // stitch the three runs together
    lemma_run_app(lines_of(hdr), lines_of(vpart) + lines_of(sep), st0);
    assert(run(lines_of(hdr), st0) == st1);
    lemma_run_app(lines_of(vpart), lines_of(sep), st1);
    assert(run(lines_of(vpart), st1) == st2);
    assert(run(lines_of(sep), st2) == PState {
        done,
        mode: (Mode::Body { name, params: acc.push(p) }),
    });
}

/// A written parameter block's text ends with a newline.
proof fn lemma_param_text_nl(p: (Seq<char>, Seq<char>))
    ensures
        param_text(p).len() > 0,
        param_text(p).last() == '\n',
{
    reveal_strlit("\n-----------\n");
    assert(("\n-----------\n"@).len() == 13);
    assert(param_text(p).last() == ("\n-----------\n"@)[12]);
}

/// A written run of parameter blocks ends with a newline, if there are any.
proof fn lemma_params_text_nl(ps: Seq<(Seq<char>, Seq<char>)>)
    ensures
        ps.len() == 0 ==> params_text(ps).len() == 0,
        ps.len() > 0 ==> params_text(ps).len() > 0 && params_text(ps).last() == '\n',
    decreases ps.len(),
{
    if ps.len() > 0 {
        lemma_param_text_nl(ps[0]);
        lemma_params_text_nl(ps.drop_first());
        if ps.drop_first().len() == 0 {
            assert(params_text(ps.drop_first()).len() == 0);
            assert(params_text(ps) =~= param_text(ps[0]));
        } else {
            assert(params_text(ps).last() == params_text(ps.drop_first()).last());
        }
    }
}

/// One written case parses back to its persisted form, appended to the done
/// cases, leaving the parser between cases again.
#[verifier::rlimit(50)]
proof fn lemma_case_run(c: CaseView, st: PState)
    requires
        serializable(c),
        st.mode is Seek,
    ensures
        run(lines_of(case_text(c)), st) == (PState {
            done: st.done.push(parsed_form(c)),
            mode: Mode::Seek,
        }),
{
    let ps = c.params.take(c.n_parsed as int);
    let hdr = "["@ + c.name + "]\n"@;
    let pt = params_text(ps);
    let tail = "===========\n\n"@;
    lemma_hdr_lines(c.name);
    lemma_case_sep_lines();
    lemma_params_text_nl(ps);
    assert(case_text(c) =~= hdr + (pt + tail));
    lemma_lines_concat(hdr, pt + tail);
    lemma_lines_concat(pt, tail);
    assert(lines_of(case_text(c)) =~= lines_of(hdr) + (lines_of(pt) + lines_of(tail)));
    // the case header line
    lemma_run_one(hdr, st);
    let st1 = PState {
        done: st.done,
        mode: (Mode::Body { name: c.name, params: Seq::empty() }),
    };
    assert(step(st, hdr) == st1);
    // the parameter blocks
    assert forall|i: int| 0 <= i < ps.len() implies name_ok((#[trigger] ps[i]).0) && value_ok(
        ps[i].1,
    ) by {
        assert(ps[i] == c.params[i]);
    }
    assert(Seq::<(Seq<char>, Seq<char>)>::empty() + ps =~= ps);
    lemma_params_run(ps, c.name, Seq::empty(), st.done);
    let st2 = PState { done: st.done, mode: (Mode::Body { name: c.name, params: ps }) };
    // the case marker emits the case; the blank line after it is skipped
    let sep = "===========\n"@;
    let nl = "\n"@;
    let emitted = CaseView { name: c.name, params: ps, n_parsed: ps.len(), diffs: Seq::empty() };
    assert(step(st2, sep) == PState { done: st.done.push(emitted), mode: Mode::Seek });
    let st3 = PState { done: st.done.push(emitted), mode: Mode::Seek };
    assert(step(st3, nl) == st3);
    assert(emitted =~= parsed_form(c));
    // stitch the runs together
    lemma_run_app(lines_of(hdr), lines_of(pt) + lines_of(tail), st);
    assert(run(lines_of(hdr), st) == st1);
    lemma_run_app(lines_of(pt), lines_of(tail), st1);
    assert(run(lines_of(pt), st1) == st2);
    assert(lines_of(tail) =~= seq![sep, nl]);
    assert(seq![sep, nl].first() == sep);
    assert(seq![sep, nl].drop_first() =~= seq![nl]);
    lemma_run_one(nl, st3);
    assert(run(seq![sep, nl], st2) == run(seq![nl], step(st2, sep)));
    assert(run(lines_of(tail), st2) == st3);
}

/// A written run of parameter blocks parses back to those bindings, in
/// order, appended to whatever was already open.
proof fn lemma_params_run(
    ps: Seq<(Seq<char>, Seq<char>)>,
    name: Seq<char>,
    acc: Seq<(Seq<char>, Seq<char>)>,
    done: Seq<CaseView>,
)
    requires
        forall|i: int| 0 <= i < ps.len() ==> name_ok((#[trigger] ps[i]).0) && value_ok(ps[i].1),
        distinct_keys(acc + ps),
    ensures
        run(
            lines_of(params_text(ps)),
            (PState { done, mode: (Mode::Body { name, params: acc }) }),
        ) == (PState { done, mode: (Mode::Body { name, params: acc + ps }) }),
    decreases ps.len(),
{
    if ps.len() == 0 {
        assert(lines_of(params_text(ps)) =~= Seq::<Seq<char>>::empty());
        assert(acc + ps =~= acc);
    } else {
        let p = ps[0];
        let rest = ps.drop_first();
        lemma_param_text_nl(p);
        assert(params_text(ps) == param_text(p) + params_text(rest));
        lemma_lines_concat(param_text(p), params_text(rest));
        let st0 = PState { done, mode: (Mode::Body { name, params: acc }) };
        // p's key is fresh in acc
        assert forall|k: int| 0 <= k < acc.len() implies (#[trigger] acc[k].0) != p.0 by {
            assert((acc + ps)[k] == acc[k]);
            assert((acc + ps)[acc.len() as int] == p);
        }
        lemma_lookup_none(acc, p.0);
        lemma_param_run(p, name, acc, done);
        let st1 = PState { done, mode: (Mode::Body { name, params: acc.push(p) }) };
        assert forall|i: int| 0 <= i < rest.len() implies name_ok((#[trigger] rest[i]).0)
            && value_ok(rest[i].1) by {
            assert(rest[i] == ps[i + 1]);
        }
        assert(acc.push(p) + rest =~= acc + ps);
        lemma_params_run(rest, name, acc.push(p), done);
        lemma_run_app(lines_of(param_text(p)), lines_of(params_text(rest)), st0);
        assert(run(lines_of(params_text(ps)), st0) == run(lines_of(params_text(rest)), st1));
    }
}

/// A written case's text ends with a newline.
proof fn lemma_case_text_nl(c: CaseView)
    ensures
        case_text(c).len() > 0,
        case_text(c).last() == '\n',
{
    reveal_strlit("===========\n\n");
    assert(("===========\n\n"@).len() == 13);
    assert(case_text(c).last() == ("===========\n\n"@)[12]);
}

/// A written sequence of cases parses back to their persisted forms.
proof fn lemma_cases_run(cs: Seq<CaseView>, st: PState)
    requires
        forall|i: int| 0 <= i < cs.len() ==> serializable(#[trigger] cs[i]),
        st.mode is Seek,
    ensures
        run(lines_of(render_text(cs)), st) == (PState {
            done: st.done + Seq::new(cs.len(), |i: int| parsed_form(cs[i])),
            mode: Mode::Seek,
        }),
    decreases cs.len(),
{
    if cs.len() == 0 {
        assert(lines_of(render_text(cs)) =~= Seq::<Seq<char>>::empty());
        assert(st.done + Seq::new(0, |i: int| parsed_form(cs[i])) =~= st.done);
        assert(PState {
            done: st.done + Seq::new(cs.len(), |i: int| parsed_form(cs[i])),
            mode: Mode::Seek,
        } =~= st);
    } else {
        let rest = cs.drop_first();
        lemma_case_text_nl(cs[0]);
        assert(render_text(cs) == case_text(cs[0]) + render_text(rest));
        lemma_lines_concat(case_text(cs[0]), render_text(rest));
        lemma_case_run(cs[0], st);
        let st1 = PState { done: st.done.push(parsed_form(cs[0])), mode: Mode::Seek };
        assert forall|i: int| 0 <= i < rest.len() implies serializable(#[trigger] rest[i]) by {
            assert(rest[i] == cs[i + 1]);
        }
        lemma_cases_run(rest, st1);
        lemma_run_app(lines_of(case_text(cs[0])), lines_of(render_text(rest)), st);
        assert(st.done.push(parsed_form(cs[0])) + Seq::new(rest.len(), |i: int| parsed_form(rest[i]))
            =~= st.done + Seq::new(cs.len(), |i: int| parsed_form(cs[i])));
    }
}

/// Round trip: write any sequence of serializable cases — named cases whose
/// serialized parameters have distinct, newline-free names and values no
/// line of which reads as a parameter marker — and parsing the result
/// reproduces the same names, parameter order and values; diff lists are
/// run-scoped and not persisted.
pub proof fn lemma_round_trip(cs: Seq<CaseView>)
    requires
        forall|i: int| 0 <= i < cs.len() ==> serializable(#[trigger] cs[i]),
    ensures
        parse_text(render_text(cs)) == ParseResult::Cases(
            Seq::new(cs.len(), |i: int| parsed_form(cs[i])),
        ),
{
    lemma_cases_run(cs, init_state());
    assert(Seq::<CaseView>::empty() + Seq::new(cs.len(), |i: int| parsed_form(cs[i])) =~= Seq::new(
        cs.len(),
        |i: int| parsed_form(cs[i]),
    ));
}

} // verus!
