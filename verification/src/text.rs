//! Character-level text model: blank space, line trimming, and splitting a
//! text into the lines a line-oriented reader would hand back (each line
//! keeps its terminating newline; a final fragment without one is a line
//! too).

use vstd::prelude::*;

verus! {

/// The characters the engine treats as blank space when it classifies a
/// line: the whitespace characters that line-based text carries.
pub open spec fn is_space(c: char) -> bool {
    c == ' ' || c == '\t' || c == '\r' || c == '\n'
}

/// Number of leading space characters of `s`.
pub open spec fn lead_spaces(s: Seq<char>) -> nat
    decreases s.len(),
{
    if s.len() == 0 {
        0
    } else if is_space(s[0]) {
        1 + lead_spaces(s.drop_first())
    } else {
        0
    }
}

/// Index just past the last non-space character of `s` (0 if all spaces).
pub open spec fn trim_end_at(s: Seq<char>) -> nat
    decreases s.len(),
{
    if s.len() == 0 {
        0
    } else if is_space(s[s.len() - 1]) {
        trim_end_at(s.drop_last())
    } else {
        s.len()
    }
}

/// `s` with leading and trailing space characters removed.
pub open spec fn trim(s: Seq<char>) -> Seq<char> {
    if trim_end_at(s) <= lead_spaces(s) {
        Seq::empty()
    } else {
        s.subrange(lead_spaces(s) as int, trim_end_at(s) as int)
    }
}

pub proof fn lemma_lead_spaces(s: Seq<char>)
    ensures
        lead_spaces(s) <= s.len(),
        forall|k: int| 0 <= k < lead_spaces(s) ==> is_space(#[trigger] s[k]),
        lead_spaces(s) < s.len() ==> !is_space(s[lead_spaces(s) as int]),
    decreases s.len(),
{
    if s.len() > 0 && is_space(s[0]) {
        lemma_lead_spaces(s.drop_first());
        assert forall|k: int| 0 <= k < lead_spaces(s) implies is_space(#[trigger] s[k]) by {
            if k > 0 {
                assert(s.drop_first()[k - 1] == s[k]);
            }
        }
        if lead_spaces(s) < s.len() {
            assert(s.drop_first()[lead_spaces(s) - 1] == s[lead_spaces(s) as int]);
        }
    }
}

pub proof fn lemma_trim_end_at(s: Seq<char>)
    ensures
        trim_end_at(s) <= s.len(),
        forall|k: int| trim_end_at(s) <= k < s.len() ==> is_space(#[trigger] s[k]),
        trim_end_at(s) > 0 ==> !is_space(s[trim_end_at(s) - 1]),
    decreases s.len(),
{
    if s.len() > 0 && is_space(s[s.len() - 1]) {
        lemma_trim_end_at(s.drop_last());
        assert forall|k: int| trim_end_at(s) <= k < s.len() implies is_space(#[trigger] s[k]) by {
            if k < s.len() - 1 {
                assert(s.drop_last()[k] == s[k]);
            }
        }
        if trim_end_at(s) > 0 {
            assert(s.drop_last()[trim_end_at(s) - 1] == s[trim_end_at(s) - 1]);
        }
    }
}

/// The characterizations above pin `lead_spaces` and `trim_end_at` down: any
/// index with their properties is equal to them.
pub proof fn lemma_lead_spaces_unique(s: Seq<char>, i: int)
    requires
        0 <= i <= s.len(),
        forall|k: int| 0 <= k < i ==> is_space(#[trigger] s[k]),
        i < s.len() ==> !is_space(s[i]),
    ensures
        lead_spaces(s) == i,
{
    lemma_lead_spaces(s);
}

pub proof fn lemma_trim_end_at_unique(s: Seq<char>, j: int)
    requires
        0 <= j <= s.len(),
        forall|k: int| j <= k < s.len() ==> is_space(#[trigger] s[k]),
        j > 0 ==> !is_space(s[j - 1]),
    ensures
        trim_end_at(s) == j,
{
    lemma_trim_end_at(s);
    if trim_end_at(s) < j {
        assert(is_space(s[j - 1]));
    }
    if trim_end_at(s) > j {
        assert(is_space(s[trim_end_at(s) - 1]));
    }
}

/// Whether `c` is a space character.
pub fn space_char(c: char) -> (b: bool)
    ensures
        b == is_space(c),
{
    c == ' ' || c == '\t' || c == '\r' || c == '\n'
}

/// `s` with leading and trailing space characters removed, as a fresh string.
pub fn trimmed(s: &str) -> (r: String)
    ensures
        r@ == trim(s@),
{
    let n = s.unicode_len();
    let mut lo: usize = 0;
    while lo < n && space_char(s.get_char(lo))
        invariant
            lo <= n,
            n == s@.len(),
            forall|k: int| 0 <= k < lo ==> is_space(#[trigger] s@[k]),
        decreases n - lo,
    {
        lo = lo + 1;
    }
    let mut hi: usize = n;
    while hi > lo && space_char(s.get_char(hi - 1))
        invariant
            lo <= hi <= n,
            n == s@.len(),
            forall|k: int| hi <= k < n ==> is_space(#[trigger] s@[k]),
        decreases hi,
    {
        hi = hi - 1;
    }
    proof {
        if hi == lo {
            // everything outside [lo, hi) is space, so the whole text is
            assert(forall|k: int| 0 <= k < n ==> is_space(#[trigger] s@[k]));
            lemma_trim_end_at(s@);
            if trim_end_at(s@) > 0 {
                assert(is_space(s@[trim_end_at(s@) - 1]));
                assert(false);
            }
        } else {
            lemma_lead_spaces_unique(s@, lo as int);
            lemma_trim_end_at_unique(s@, hi as int);
        }
    }
    let cut = s.substring_char(lo, hi);
    let r = cut.to_owned();
    proof {
        assert(r@ =~= trim(s@));
    }
    r
}

/// Whether two strings hold the same characters.
pub fn str_eq(a: &str, b: &str) -> (r: bool)
    ensures
        r == (a@ == b@),
{
    let n = a.unicode_len();
    if n != b.unicode_len() {
        return false;
    }
    let mut i: usize = 0;
    while i < n
        invariant
            i <= n,
            n == a@.len() == b@.len(),
            forall|k: int| 0 <= k < i ==> a@[k] == b@[k],
        decreases n - i,
    {
        if a.get_char(i) != b.get_char(i) {
            return false;
        }
        i = i + 1;
    }
    proof {
        assert(a@ =~= b@);
    }
    true
}

/// Index of the first newline of `s`, or its length if there is none.
pub open spec fn line_break(s: Seq<char>) -> nat
    decreases s.len(),
{
    if s.len() == 0 {
        0
    } else if s[0] == '\n' {
        0
    } else {
        1 + line_break(s.drop_first())
    }
}

pub proof fn lemma_line_break(s: Seq<char>)
    ensures
        line_break(s) <= s.len(),
        forall|k: int| 0 <= k < line_break(s) ==> #[trigger] s[k] != '\n',
        line_break(s) < s.len() ==> s[line_break(s) as int] == '\n',
    decreases s.len(),
{
    if s.len() > 0 && s[0] != '\n' {
        lemma_line_break(s.drop_first());
        assert forall|k: int| 0 <= k < line_break(s) implies #[trigger] s[k] != '\n' by {
            if k > 0 {
                assert(s.drop_first()[k - 1] == s[k]);
            }
        }
        if line_break(s) < s.len() {
            assert(s.drop_first()[line_break(s) - 1] == s[line_break(s) as int]);
        }
    }
}

/// The lines of `s`, split after every newline.  Every line but possibly the
/// last ends with a newline; the last does exactly when `s` does.
pub open spec fn lines_of(s: Seq<char>) -> Seq<Seq<char>>
    decreases s.len(),
{
    if s.len() == 0 {
        Seq::empty()
    } else {
        let b = line_break(s) as int;
        if b >= s.len() {
            seq![s]
        } else {
            seq![s.subrange(0, b + 1)] + lines_of(s.subrange(b + 1, s.len() as int))
        }
    }
}

pub proof fn lemma_line_break_unique(s: Seq<char>, b: int)
    requires
        0 <= b <= s.len(),
        forall|k: int| 0 <= k < b ==> #[trigger] s[k] != '\n',
        b < s.len() ==> s[b] == '\n',
    ensures
        line_break(s) == b,
{
    lemma_line_break(s);
    if line_break(s) < b {
        assert(s[line_break(s) as int] == '\n');
    }
    if line_break(s) > b {
        assert(s[b] != '\n');
    }
}

/// Concatenation of a sequence of texts.
pub open spec fn joined(ls: Seq<Seq<char>>) -> Seq<char>
    decreases ls.len(),
{
    if ls.len() == 0 {
        Seq::empty()
    } else {
        ls.first() + joined(ls.drop_first())
    }
}

/// Splitting a text into lines loses nothing: joined back, it is the text.
pub proof fn lemma_lines_join(s: Seq<char>)
    ensures
        joined(lines_of(s)) =~= s,
    decreases s.len(),
{
    reveal_with_fuel(joined, 2);
    if s.len() > 0 {
        lemma_line_break(s);
        let b = line_break(s) as int;
        if b >= s.len() {
            assert(lines_of(s) == seq![s]);
            assert(seq![s].first() == s);
            assert(seq![s].drop_first() =~= Seq::<Seq<char>>::empty());
        } else {
            let rest = s.subrange(b + 1, s.len() as int);
            lemma_lines_join(rest);
            let ls = lines_of(s);
            assert(ls == seq![s.subrange(0, b + 1)] + lines_of(rest));
            assert(ls.first() == s.subrange(0, b + 1));
            assert(ls.drop_first() =~= lines_of(rest));
            assert(joined(ls) =~= s.subrange(0, b + 1) + joined(lines_of(rest)));
        }
    }
}

/// Lines distribute over concatenation at a newline boundary.
pub proof fn lemma_lines_concat(a: Seq<char>, b: Seq<char>)
    requires
        a.len() == 0 || a[a.len() - 1] == '\n',
    ensures
        lines_of(a + b) =~= lines_of(a) + lines_of(b),
    decreases a.len(),
{
    if a.len() == 0 {
        assert(a + b =~= b);
        assert(lines_of(a) + lines_of(b) =~= lines_of(b));
    } else {
        lemma_line_break(a);
        let la = line_break(a) as int;
        if la >= a.len() {
            assert(a[a.len() - 1] != '\n');
            assert(false);
        }
        assert forall|k: int| 0 <= k < la implies #[trigger] (a + b)[k] != '\n' by {
            assert((a + b)[k] == a[k]);
        }
        assert((a + b)[la] == a[la]);
        lemma_line_break_unique(a + b, la);
        assert((a + b).subrange(0, la + 1) =~= a.subrange(0, la + 1));
        let a2 = a.subrange(la + 1, a.len() as int);
        assert((a + b).subrange(la + 1, (a + b).len() as int) =~= a2 + b);
        if a2.len() > 0 {
            assert(a2[a2.len() - 1] == a[a.len() - 1]);
        }
        lemma_lines_concat(a2, b);
        assert(lines_of(a + b) == seq![(a + b).subrange(0, la + 1)] + lines_of(a2 + b));
        assert(lines_of(a) == seq![a.subrange(0, la + 1)] + lines_of(a2));
        assert(lines_of(a + b) =~= lines_of(a) + lines_of(b));
    }
}

/// A text that ends with its only newline is a single line.
pub proof fn lemma_lines_single(l: Seq<char>)
    requires
        l.len() > 0,
        l[l.len() - 1] == '\n',
        forall|k: int| 0 <= k < l.len() - 1 ==> #[trigger] l[k] != '\n',
    ensures
        lines_of(l) =~= seq![l],
{
    lemma_line_break_unique(l, l.len() - 1);
    assert(l.subrange(0, l.len() as int) =~= l);
    assert(l.subrange(l.len() as int, l.len() as int) =~= Seq::<char>::empty());
    assert(lines_of(l) == seq![l.subrange(0, l.len() as int)] + lines_of(
        l.subrange(l.len() as int, l.len() as int),
    ));
    assert(lines_of(l) =~= seq![l]);
}

/// A line with a solid first character, a newline at the end and a solid
/// character just before it trims to itself minus that newline.
pub proof fn lemma_trim_line(s: Seq<char>)
    requires
        s.len() >= 2,
        !is_space(s[0]),
        !is_space(s[s.len() - 2]),
        s[s.len() - 1] == '\n',
    ensures
        trim(s) =~= s.drop_last(),
{
    lemma_lead_spaces_unique(s, 0);
    lemma_trim_end_at_unique(s, s.len() - 1);
    assert(trim(s) =~= s.subrange(0, s.len() - 1));
    assert(s.drop_last() =~= s.subrange(0, s.len() - 1));
}

/// A text of space characters trims to nothing.
pub proof fn lemma_trim_all_space(s: Seq<char>)
    requires
        forall|k: int| 0 <= k < s.len() ==> is_space(#[trigger] s[k]),
    ensures
        trim(s).len() == 0,
{
    lemma_trim_end_at(s);
    if trim_end_at(s) > 0 {
        assert(is_space(s[trim_end_at(s) - 1]));
        assert(false);
    }
}

/// The lines of any text are non-empty, hold newlines only at their end,
/// and all but the last end with one.
pub proof fn lemma_lines_shape(s: Seq<char>)
    ensures
        forall|i: int| 0 <= i < lines_of(s).len() ==> (#[trigger] lines_of(s)[i]).len() > 0,
        forall|i: int, k: int|
            0 <= i < lines_of(s).len() && 0 <= k < lines_of(s)[i].len() - 1 ==> (
            #[trigger] lines_of(s)[i][k]) != '\n',
        forall|i: int|
            0 <= i < lines_of(s).len() - 1 ==> (#[trigger] lines_of(s)[i]).last() == '\n',
    decreases s.len(),
{
    if s.len() > 0 {
        lemma_line_break(s);
        let b = line_break(s) as int;
        if b < s.len() {
            let rest = s.subrange(b + 1, s.len() as int);
            lemma_lines_shape(rest);
            assert forall|i: int| 0 <= i < lines_of(s).len() implies (#[trigger] lines_of(
                s,
            )[i]).len() > 0 by {
                if i > 0 {
                    assert(lines_of(s)[i] == lines_of(rest)[i - 1]);
                }
            }
            assert forall|i: int, k: int|
                0 <= i < lines_of(s).len() && 0 <= k < lines_of(s)[i].len() - 1 implies (
            #[trigger] lines_of(s)[i][k]) != '\n' by {
                if i == 0 {
                    assert(lines_of(s)[0] == s.subrange(0, b + 1));
                    assert(lines_of(s)[0][k] == s[k]);
                } else {
                    assert(lines_of(s)[i] == lines_of(rest)[i - 1]);
                }
            }
            assert forall|i: int| 0 <= i < lines_of(s).len() - 1 implies (#[trigger] lines_of(
                s,
            )[i]).last() == '\n' by {
                if i == 0 {
                    assert(lines_of(s)[0] == s.subrange(0, b + 1));
                    assert(lines_of(s)[0].last() == s[b]);
                } else {
                    assert(lines_of(s)[i] == lines_of(rest)[i - 1]);
                }
            }
        }
    }
}

/// Trimming a line (newlines only at its end) leaves no newline at all.
pub proof fn lemma_trim_no_nl(l: Seq<char>)
    requires
        forall|k: int| 0 <= k < l.len() - 1 ==> #[trigger] l[k] != '\n',
    ensures
        forall|k: int| 0 <= k < trim(l).len() ==> #[trigger] trim(l)[k] != '\n',
{
    lemma_lead_spaces(l);
    lemma_trim_end_at(l);
    if trim_end_at(l) > lead_spaces(l) {
        let te = trim_end_at(l) as int;
        assert forall|k: int| 0 <= k < trim(l).len() implies #[trigger] trim(l)[k] != '\n' by {
            let j = lead_spaces(l) + k;
            assert(trim(l)[k] == l[j]);
            if j == l.len() - 1 {
                // the last character sits below the trim end, so it is not
                // trailing space, hence not a newline
                assert(!is_space(l[te - 1]));
                assert(te - 1 == j);
            }
        }
    }
}

/// Every line of a text of space characters is itself all space.
pub proof fn lemma_lines_space(s: Seq<char>)
    requires
        forall|k: int| 0 <= k < s.len() ==> is_space(#[trigger] s[k]),
    ensures
        forall|i: int, k: int|
            0 <= i < lines_of(s).len() && 0 <= k < lines_of(s)[i].len() ==> is_space(
                #[trigger] lines_of(s)[i][k],
            ),
    decreases s.len(),
{
    if s.len() > 0 {
        lemma_line_break(s);
        let b = line_break(s) as int;
        if b >= s.len() {
            assert forall|i: int, k: int|
                0 <= i < lines_of(s).len() && 0 <= k < lines_of(s)[i].len() implies is_space(
                #[trigger] lines_of(s)[i][k],
            ) by {
                assert(lines_of(s)[i] == s);
            }
        } else {
            let rest = s.subrange(b + 1, s.len() as int);
            assert forall|k: int| 0 <= k < rest.len() implies is_space(#[trigger] rest[k]) by {
                assert(rest[k] == s[b + 1 + k]);
            }
            lemma_lines_space(rest);
            assert forall|i: int, k: int|
                0 <= i < lines_of(s).len() && 0 <= k < lines_of(s)[i].len() implies is_space(
                #[trigger] lines_of(s)[i][k],
            ) by {
                if i == 0 {
                    assert(lines_of(s)[0] == s.subrange(0, b + 1));
                    assert(lines_of(s)[i][k] == s[k]);
                } else {
                    assert(lines_of(s)[i] == lines_of(rest)[i - 1]);
                }
            }
        }
    }
}

/// Views of a sequence of strings.
pub open spec fn str_views(ls: Seq<String>) -> Seq<Seq<char>> {
    Seq::new(ls.len(), |i: int| ls[i]@)
}

/// Split `text` into the lines a line-oriented reader hands back: each line
/// keeps its newline; a final fragment without one is a line too.
pub fn split_lines(text: &str) -> (r: Vec<String>)
    ensures
        str_views(r@) == lines_of(text@),
{
    let n = text.unicode_len();
    let mut out: Vec<String> = Vec::new();
    let mut start: usize = 0;
    let mut i: usize = 0;
    proof {
        assert(text@.subrange(0, n as int) =~= text@);
        assert(str_views(out@) + lines_of(text@) =~= lines_of(text@));
    }
    while i < n
        invariant
            start <= i <= n,
            n == text@.len(),
            forall|k: int| start <= k < i ==> #[trigger] text@[k] != '\n',
            lines_of(text@) =~= str_views(out@) + lines_of(
                text@.subrange(start as int, n as int),
            ),
        decreases n - i,
    {
        if text.get_char(i) == '\n' {
            let line = text.substring_char(start, i + 1).to_owned();
            proof {
                let rest = text@.subrange(start as int, n as int);
                assert forall|k: int| 0 <= k < i - start implies #[trigger] rest[k] != '\n' by {
                    assert(rest[k] == text@[start + k]);
                }
                lemma_line_break_unique(rest, i - start);
                assert(rest.subrange(0, i - start + 1) =~= text@.subrange(
                    start as int,
                    i + 1,
                ));
                assert(rest.subrange(i - start + 1, rest.len() as int) =~= text@.subrange(
                    i + 1,
                    n as int,
                ));
                assert(str_views(out@.push(line)) =~= str_views(out@) + seq![line@]);
                assert(str_views(out@.push(line)) + lines_of(text@.subrange(i + 1, n as int))
                    =~= str_views(out@) + lines_of(rest));
            }
            out.push(line);
            start = i + 1;
        }
        i = i + 1;
    }
    if start < n {
        let line = text.substring_char(start, n).to_owned();
        proof {
            let rest = text@.subrange(start as int, n as int);
            assert forall|k: int| 0 <= k < rest.len() implies #[trigger] rest[k] != '\n' by {
                assert(rest[k] == text@[start + k]);
            }
            lemma_line_break_unique(rest, rest.len() as int);
            assert(lines_of(rest) =~= seq![rest]);
            assert(str_views(out@.push(line)) =~= str_views(out@) + seq![line@]);
        }
        out.push(line);
    }
    proof {
        if start == n {
            assert(text@.subrange(start as int, n as int) =~= Seq::<char>::empty());
        }
        assert(str_views(out@) =~= lines_of(text@));
    }
    out
}

} // verus!
