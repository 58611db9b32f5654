//! Laws that relate the scanner and the serializer.
use vstd::prelude::*;
use crate::case::CaseView;
use crate::directive::{ArgsView, directive_spec};
use crate::file::{
    StanzaView, block_end, case_text, closes_block, expecteds, file_text, has_blank_line,
    input_end, lemma_block_end, lemma_input_end, lemma_plain_end, lemma_read_case_advances, line,
    no_newline, parse_spec, plain_end, read_case, render, result_text, scan, sep, test_count,
};
use crate::run::{OutcomeView, failed_at, failure_message, normal_pass};
use crate::text::{
    before_hash, clean_line, is_blank, join_lines, join_range, lemma_join_range_back,
    lemma_join_range_front, lemma_join_range_split, lemma_lines_append, lemma_lines_join,
    lemma_lines_line, lemma_lines_rebuild, lines_of, plain_line_endings, split_state, strip_cr,
};

verus! {

/// The case whose directive is line `i` is written the way the serializer writes it: its
/// input ends at a separator; a double-separator block is used only where the output needs
/// it (an empty line inside, or no final line ending on a non-empty last line); and the line
/// that ends the case, if any, is empty and followed by more lines.
pub open spec fn case_laid_out(ls: Seq<Seq<char>>, i: int) -> bool {
    let j = input_end(ls, i + 1);
    let k = j + 1;
    &&& j < ls.len()
    &&& if k < ls.len() && ls[k] == sep() {
        match block_end(ls, k + 1) {
            None => true,
            Some(t) => {
                &&& (ls[t + 1] == sep() ==> has_blank_line(join_range(ls, k + 1, t)))
                &&& (ls[t + 1] == no_newline() ==> k + 1 < t && ls[t - 1].len() > 0)
                &&& (t + 2 < ls.len() ==> ls[t + 2].len() == 0 && t + 3 < ls.len())
            },
        }
    } else {
        let e = plain_end(ls, k);
        e < ls.len() ==> ls[e].len() == 0 && e + 1 < ls.len()
    }
}

/// Every case from line `i` on is laid out as the serializer writes it.
pub open spec fn canonical_from(ls: Seq<Seq<char>>, i: int) -> bool
    decreases ls.len() - i,
{
    if i < 0 || i >= ls.len() {
        true
    } else if is_blank(before_hash(ls[i])) {
        canonical_from(ls, i + 1)
    } else {
        match directive_spec(before_hash(ls[i])) {
            Err(_) => true,
            Ok((name, args)) => match read_case(ls, i, name, args) {
                Err(_) => true,
                Ok((_, next)) => {
                    proof {
                        lemma_read_case_advances(ls, i, name, args);
                    }
                    case_laid_out(ls, i) && (next < ls.len() ==> canonical_from(ls, next))
                },
            },
        }
    }
}

/// A file text in the form the serializer writes: plain line endings and every case laid
/// out canonically.
pub open spec fn canonical(f: Seq<char>) -> bool {
    plain_line_endings(f) && canonical_from(lines_of(f), 0)
}

/// No line holds a line ending.
pub open spec fn single_lines(ls: Seq<Seq<char>>) -> bool {
    forall|k: int, p: int| 0 <= k < ls.len() && 0 <= p < ls[k].len() ==> #[trigger] ls[k][p] != '\n'
}

proof fn lemma_split_state_single(s: Seq<char>)
    ensures
        single_lines(split_state(s).0),
        forall|p: int| 0 <= p < split_state(s).1.len() ==> #[trigger] split_state(s).1[p] != '\n',
    decreases s.len(),
{
    if s.len() > 0 {
        lemma_split_state_single(s.drop_last());
        let (done, cur) = split_state(s.drop_last());
        if s.last() == '\n' {
            let c = strip_cr(cur);
            assert forall|p: int| 0 <= p < c.len() implies #[trigger] c[p] != '\n' by {
                assert(c[p] == cur[p]);
            }
            let d2 = done.push(c);
            assert forall|k: int, p: int| 0 <= k < d2.len() && 0 <= p < d2[k].len() implies #[trigger] d2[k][p]
                != '\n' by {
                if k < done.len() {
                    assert(d2[k] == done[k]);
                }
            }
        } else {
            let c2 = cur.push(s.last());
            assert forall|p: int| 0 <= p < c2.len() implies #[trigger] c2[p] != '\n' by {
                if p < cur.len() {
                    assert(c2[p] == cur[p]);
                }
            }
        }
    }
}

proof fn lemma_lines_single(s: Seq<char>)
    ensures
        single_lines(lines_of(s)),
{
    lemma_split_state_single(s);
    let (done, cur) = split_state(s);
    if cur.len() > 0 {
        let d2 = done.push(cur);
        assert forall|k: int, p: int| 0 <= k < d2.len() && 0 <= p < d2[k].len() implies #[trigger] d2[k][p]
            != '\n' by {
            if k < done.len() {
                assert(d2[k] == done[k]);
            }
        }
    }
}

proof fn lemma_test_count_append(a: Seq<StanzaView>, b: Seq<StanzaView>)
    ensures
        test_count(a + b) == test_count(a) + test_count(b),
        expecteds(a + b) == expecteds(a) + expecteds(b),
        expecteds(b).len() == test_count(b),
    decreases b.len(),
{
    if b.len() == 0 {
        assert(a + b =~= a);
        assert(expecteds(a) + expecteds(b) =~= expecteds(a));
    } else {
        lemma_test_count_append(a, b.drop_last());
        assert((a + b).drop_last() =~= a + b.drop_last());
        assert((a + b).last() == b.last());
        match b.last() {
            StanzaView::Comment(_) => {},
            StanzaView::Test(c) => {
                assert(expecteds(a) + expecteds(b) =~= (expecteds(a) + expecteds(b.drop_last())).push(
                    c.expected,
                ));
            },
        }
    }
}

proof fn lemma_render_append(
    a: Seq<StanzaView>,
    b: Seq<StanzaView>,
    ra: Seq<Seq<char>>,
    rb: Seq<Seq<char>>,
)
    requires
        ra.len() == test_count(a),
        rb.len() == test_count(b),
    ensures
        render(a + b, ra + rb) == render(a, ra) + render(b, rb),
    decreases b.len(),
{
    if b.len() == 0 {
        assert(a + b =~= a);
        assert(ra + rb =~= ra);
        assert(render(a, ra) + render(b, rb) =~= render(a, ra));
    } else {
        assert((a + b).drop_last() =~= a + b.drop_last());
        assert((a + b).last() == b.last());
        match b.last() {
            StanzaView::Comment(c) => {
                lemma_render_append(a, b.drop_last(), ra, rb);
                assert(render(a + b, ra + rb) =~= render(a, ra) + render(b, rb));
            },
            StanzaView::Test(c) => {
                assert((ra + rb).drop_last() =~= ra + rb.drop_last());
                assert((ra + rb).last() == rb.last());
                lemma_render_append(a, b.drop_last(), ra, rb.drop_last());
                assert(render(a + b, ra + rb) =~= render(a, ra) + render(b, rb));
            },
        }
    }
}

proof fn lemma_file_text_append(a: Seq<StanzaView>, b: Seq<StanzaView>)
    ensures
        file_text(a + b) == file_text(a) + file_text(b),
{
    lemma_test_count_append(a, b);
    lemma_test_count_append(Seq::empty(), a);
    assert(Seq::<StanzaView>::empty() + a =~= a);
    lemma_render_append(a, b, expecteds(a), expecteds(b));
}

proof fn lemma_file_text_comment(c: Seq<char>)
    ensures
        file_text(seq![StanzaView::Comment(c)]) == line(c),
{
    let s = seq![StanzaView::Comment(c)];
    let e = Seq::<StanzaView>::empty();
    assert(s.drop_last() =~= e);
    assert(expecteds(e) =~= Seq::<Seq<char>>::empty());
    assert(expecteds(s) == expecteds(e));
    assert(render(e, expecteds(s)) =~= Seq::<char>::empty());
    assert(render(s, expecteds(s)) =~= line(c));
}

proof fn lemma_file_text_case(c: CaseView)
    ensures
        file_text(seq![StanzaView::Test(c)]) == case_text(c, c.expected),
{
    let s = seq![StanzaView::Test(c)];
    let e = Seq::<StanzaView>::empty();
    assert(s.drop_last() =~= e);
    assert(expecteds(e) =~= Seq::<Seq<char>>::empty());
    assert(expecteds(s) =~= seq![c.expected]);
    assert(seq![c.expected].drop_last() =~= Seq::<Seq<char>>::empty());
    assert(render(e, Seq::<Seq<char>>::empty()) =~= Seq::<char>::empty());
    assert(render(s, expecteds(s)) =~= case_text(c, c.expected));
}

/// Lines that are all non-blank join into a text with no empty line in it, ending in a line
/// ending when there is any.
proof fn lemma_join_plain(ls: Seq<Seq<char>>, a: int, b: int)
    requires
        0 <= a <= b <= ls.len(),
        single_lines(ls),
        forall|k: int| a <= k < b ==> !is_blank(#[trigger] ls[k]),
    ensures
        !has_blank_line(join_range(ls, a, b)),
        a < b ==> join_range(ls, a, b).len() > 0 && join_range(ls, a, b).last() == '\n',
        join_range(ls, a, b) != seq!['\n'],
    decreases b - a,
{
    if a < b {
        lemma_join_plain(ls, a, b - 1);
        lemma_join_range_back(ls, a, b - 1);
        let x = join_range(ls, a, b - 1);
        let l = ls[b - 1];
        let s = join_range(ls, a, b);
        assert(!is_blank(l));
        assert(l.len() > 0);
        assert(s =~= x + l + seq!['\n']);
        assert forall|p: int| 0 <= p && p + 1 < s.len() implies !(s[p] == '\n' && #[trigger] s[p
            + 1] == '\n') by {
            if p + 1 < x.len() {
                assert(s[p] == x[p] && s[p + 1] == x[p + 1]);
            } else if p + 1 < x.len() + l.len() {
                assert(s[p + 1] == l[p + 1 - x.len()]);
            } else {
                assert(s[p] == l[l.len() - 1]);
            }
        }
    } else {
        assert(join_range(ls, a, b) =~= Seq::<char>::empty());
    }
}

/// A block closed by the no-newline marker: its output, given a line ending back, is the
/// whole block, and it neither is empty nor ends in a line ending.
proof fn lemma_join_no_newline(ls: Seq<Seq<char>>, a: int, b: int)
    requires
        0 <= a < b <= ls.len(),
        single_lines(ls),
        ls[b - 1].len() > 0,
    ensures
        join_range(ls, a, b).len() > 1,
        line(join_range(ls, a, b).drop_last()) == join_range(ls, a, b),
        join_range(ls, a, b).drop_last().last() != '\n',
{
    lemma_join_range_back(ls, a, b - 1);
    let x = join_range(ls, a, b - 1);
    let l = ls[b - 1];
    let s = join_range(ls, a, b);
    assert(s =~= x + l + seq!['\n']);
    assert(s.drop_last() =~= x + l);
    assert(s.drop_last().last() == l[l.len() - 1]);
    assert(line(s.drop_last()) =~= s);
}

/// Where the text of the case at line `i` ends: after the closing pair of its block, or at
/// the line that ends its output (at most the end of the file).
pub open spec fn case_end(ls: Seq<Seq<char>>, i: int) -> int {
    let j = input_end(ls, i + 1);
    let k = j + 1;
    if k < ls.len() && ls[k] == sep() {
        match block_end(ls, k + 1) {
            Some(t) => t + 2,
            None => ls.len() as int,
        }
    } else {
        let e = plain_end(ls, k);
        if e <= ls.len() {
            e
        } else {
            ls.len() as int
        }
    }
}

/// A double-separator case laid out canonically is written back as its lines.
#[verifier::rlimit(80)]
proof fn lemma_block_case(ls: Seq<Seq<char>>, i: int, name: Seq<char>, args: ArgsView)
    requires
        0 <= i < ls.len(),
        single_lines(ls),
        read_case(ls, i, name, args) is Ok,
        case_laid_out(ls, i),
        input_end(ls, i + 1) + 1 < ls.len(),
        ls[input_end(ls, i + 1) + 1] == sep(),
    ensures
        ({
            let case = read_case(ls, i, name, args)->Ok_0.0;
            case_text(case, case.expected) == join_range(ls, i, case_end(ls, i))
        }),
        i < case_end(ls, i) <= ls.len(),
        read_case(ls, i, name, args)->Ok_0.1 == case_end(ls, i) + 1,
{
    let n = ls.len() as int;
    let case = read_case(ls, i, name, args)->Ok_0.0;
    lemma_input_end(ls, i + 1);
    let j = input_end(ls, i + 1);
    let k = j + 1;
    lemma_block_end(ls, k + 1);
    let t = block_end(ls, k + 1)->0;
    assert(closes_block(ls, t));
    let body = join_range(ls, k + 1, t);
    if ls[t + 1] == sep() {
        assert(case.expected == body);
        let p = choose|p: int|
            0 <= p && p + 1 < body.len() && body[p] == '\n' && #[trigger] body[p + 1] == '\n';
        if t <= k + 1 {
            assert(join_range(ls, k + 1, t) =~= Seq::<char>::empty());
        }
        lemma_join_range_back(ls, k + 1, t - 1);
        assert(body.len() > 0 && body.last() == '\n');
        assert(body != seq!['\n']) by {
            if body == seq!['\n'] {
                assert(body.len() == 1);
            }
        }
        assert(result_text(case.expected) =~= line(sep()) + line(sep()) + body + line(sep())
            + line(sep()));
    } else {
        assert(ls[t + 1] == no_newline());
        lemma_join_no_newline(ls, k + 1, t);
        assert(case.expected == body.drop_last());
        assert(result_text(case.expected) =~= line(sep()) + line(sep()) + line(body.drop_last())
            + line(sep()) + line(no_newline()));
    }
    lemma_join_range_split(ls, i + 1, j, t + 2);
    lemma_join_range_front(ls, i, t + 2);
    lemma_join_range_front(ls, j, t + 2);
    lemma_join_range_front(ls, k, t + 2);
    lemma_join_range_split(ls, k + 1, t, t + 2);
    lemma_join_range_front(ls, t, t + 2);
    lemma_join_range_front(ls, t + 1, t + 2);
    assert(join_range(ls, t + 2, t + 2) =~= Seq::<char>::empty());
    assert(case_text(case, case.expected) =~= join_range(ls, i, t + 2));
}

/// A case without a block, laid out canonically, is written back as its lines.
proof fn lemma_plain_case(ls: Seq<Seq<char>>, i: int, name: Seq<char>, args: ArgsView)
    requires
        0 <= i < ls.len(),
        single_lines(ls),
        read_case(ls, i, name, args) is Ok,
        case_laid_out(ls, i),
        !(input_end(ls, i + 1) + 1 < ls.len() && ls[input_end(ls, i + 1) + 1] == sep()),
    ensures
        ({
            let case = read_case(ls, i, name, args)->Ok_0.0;
            case_text(case, case.expected) == join_range(ls, i, case_end(ls, i))
        }),
        i < case_end(ls, i) <= ls.len(),
        read_case(ls, i, name, args)->Ok_0.1 < ls.len() ==> read_case(ls, i, name, args)->Ok_0.1
            == case_end(ls, i) + 1,
        read_case(ls, i, name, args)->Ok_0.1 >= ls.len() ==> case_end(ls, i) == ls.len(),
{
    let n = ls.len() as int;
    let case = read_case(ls, i, name, args)->Ok_0.0;
    lemma_input_end(ls, i + 1);
    let j = input_end(ls, i + 1);
    let k = j + 1;
    lemma_plain_end(ls, k);
    let e = plain_end(ls, k);
    let expected = join_range(ls, k, e);
    assert(case.expected == expected);
    let e2 = if e <= n {
        e
    } else {
        n
    };
    if e > n {
        assert(k == n + 1 || k == n);
        assert(expected =~= Seq::<char>::empty());
    } else {
        lemma_join_plain(ls, k, e);
    }
    assert(result_text(expected) =~= line(sep()) + expected) by {
        if expected.len() == 0 {
            assert(line(sep()) + expected =~= line(sep()));
        }
    }
    lemma_join_range_split(ls, i + 1, j, e2);
    lemma_join_range_front(ls, i, e2);
    lemma_join_range_front(ls, j, e2);
    if e > n {
        assert(join_range(ls, k, e2) =~= Seq::<char>::empty());
    }
    assert(case_text(case, case.expected) =~= join_range(ls, i, e2));
}

/// The stanzas read from line `i` on, written back with their recorded outputs, give the
/// lines from `i` on.
#[verifier::rlimit(40)]
proof fn lemma_scan_text(ls: Seq<Seq<char>>, i: int)
    requires
        0 <= i <= ls.len(),
        single_lines(ls),
        canonical_from(ls, i),
        scan(ls, i) is Ok,
    ensures
        file_text(scan(ls, i)->Ok_0) == join_range(ls, i, ls.len() as int),
    decreases ls.len() - i,
{
    let n = ls.len() as int;
    if i == n {
        assert(file_text(Seq::<StanzaView>::empty()) =~= Seq::<char>::empty());
    } else if is_blank(before_hash(ls[i])) {
        lemma_scan_text(ls, i + 1);
        let rest = scan(ls, i + 1)->Ok_0;
        lemma_file_text_append(seq![StanzaView::Comment(ls[i])], rest);
        lemma_file_text_comment(ls[i]);
        lemma_join_range_front(ls, i, n);
        assert(file_text(scan(ls, i)->Ok_0) =~= join_range(ls, i, n));
    } else {
        let (name, args) = directive_spec(before_hash(ls[i]))->Ok_0;
        let (case, next) = read_case(ls, i, name, args)->Ok_0;
        lemma_read_case_advances(ls, i, name, args);
        lemma_input_end(ls, i + 1);
        let j = input_end(ls, i + 1);
        if j + 1 < n && ls[j + 1] == sep() {
            lemma_block_case(ls, i, name, args);
        } else {
            lemma_plain_case(ls, i, name, args);
        }
        let end = case_end(ls, i);
        lemma_file_text_case(case);
        if next < n {
            assert(ls[end].len() == 0) by {
                if j + 1 < n && ls[j + 1] == sep() {
                    lemma_block_end(ls, j + 2);
                } else {
                    lemma_plain_end(ls, j + 1);
                }
            }
            lemma_scan_text(ls, next);
            let rest = scan(ls, next)->Ok_0;
            let one = seq![StanzaView::Test(case)];
            let blank = seq![StanzaView::Comment(seq![])];
            assert(scan(ls, i)->Ok_0 == (one + blank) + rest);
            lemma_file_text_append(one + blank, rest);
            lemma_file_text_append(one, blank);
            lemma_file_text_comment(seq![]);
            lemma_join_range_split(ls, i, end, n);
            lemma_join_range_front(ls, end, n);
            assert(line(seq![]) =~= ls[end] + seq!['\n']);
            assert(file_text(scan(ls, i)->Ok_0) =~= join_range(ls, i, n));
        } else {
            assert(scan(ls, i)->Ok_0 == seq![StanzaView::Test(case)]);
        }
    }
}

/// Round trip: a file text that parses and is laid out the way the serializer writes it is
/// given back, character for character, when its stanzas are written out with their
/// recorded outputs.
pub proof fn lemma_round_trip(f: Seq<char>)
    requires
        parse_spec(f) is Ok,
        canonical(f),
    ensures
        file_text(parse_spec(f)->Ok_0) == f,
{
    let ls = lines_of(f);
    lemma_lines_single(f);
    lemma_scan_text(ls, 0);
    lemma_lines_rebuild(f);
    if ls.len() > 0 {
        assert(ls.subrange(0, ls.len() as int) =~= ls);
    } else {
        assert(join_lines(ls) =~= Seq::<char>::empty());
    }
}

/// Fail fast: in a normal pass over a file whose cases stand at stanzas `a < b < c`, if the
/// pass ran the case at `b` and it failed, then the case at `a` passed, the pass stopped at
/// `b` (the case at `c` was not run and is as it was), and the one failure recorded is that
/// of the case at `b`.
pub proof fn lemma_fail_fast(
    before: Seq<StanzaView>,
    after: Seq<StanzaView>,
    filename: Seq<char>,
    outs: Seq<Option<OutcomeView>>,
    failure_before: Option<Seq<char>>,
    failure_after: Option<Seq<char>>,
    a: int,
    b: int,
    c: int,
)
    requires
        normal_pass(before, after, filename, outs, failure_before, failure_after),
        0 <= a < b < c < before.len(),
        before[a] is Test,
        before[b] is Test,
        before[c] is Test,
        b < outs.len(),
        failed_at(after, outs, b),
    ensures
        outs.len() == b + 1,
        !failed_at(after, outs, a),
        after[c] == before[c],
        failure_after == Some(failure_message(filename, after[b]->Test_0, outs[b]->Some_0)),
{
    assert(after[c] == before[c]);
}

/// An output whose written block reads back as one block that ends where it was written:
/// no closing pair inside a double-separator block, and in the single-separator form no
/// blank line and no separator first.
pub open spec fn reads_back(r: Seq<char>) -> bool {
    if r.len() == 0 || r == seq!['\n'] {
        true
    } else if r.last() != '\n' {
        let b = lines_of(line(r)) + seq![sep(), no_newline()];
        block_end(b, 0) == Some(b.len() - 2)
    } else if has_blank_line(r) {
        let b = lines_of(r) + seq![sep(), sep()];
        block_end(b, 0) == Some(b.len() - 2)
    } else {
        let l = lines_of(r);
        l.len() > 0 && l[0] != sep() && forall|k: int| 0 <= k < l.len() ==> !is_blank(#[trigger] l[k])
    }
}

/// The lines of an output's written block.
pub open spec fn result_lines(r: Seq<char>) -> Seq<Seq<char>> {
    if r.len() == 0 || r == seq!['\n'] {
        seq![sep()]
    } else if r.last() != '\n' {
        seq![sep(), sep()] + lines_of(line(r)) + seq![sep(), no_newline()]
    } else if has_blank_line(r) {
        seq![sep(), sep()] + lines_of(r) + seq![sep(), sep()]
    } else {
        seq![sep()] + lines_of(r)
    }
}

/// The stanzas are the same but for the cases' outputs, arguments, names and lines.
pub open spec fn same_skeleton(a: Seq<StanzaView>, b: Seq<StanzaView>) -> bool {
    &&& a.len() == b.len()
    &&& forall|k: int|
        0 <= k < a.len() ==> match (#[trigger] a[k], b[k]) {
            (StanzaView::Comment(x), StanzaView::Comment(y)) => x == y,
            (StanzaView::Test(x), StanzaView::Test(y)) => x.directive_line == y.directive_line
                && x.input == y.input,
            _ => false,
        }
}

proof fn lemma_skeleton_render(a: Seq<StanzaView>, b: Seq<StanzaView>, rs: Seq<Seq<char>>)
    requires
        same_skeleton(a, b),
    ensures
        render(a, rs) == render(b, rs),
        test_count(a) == test_count(b),
    decreases a.len(),
{
    if a.len() > 0 {
        let (a2, b2) = (a.drop_last(), b.drop_last());
        assert(same_skeleton(a2, b2)) by {
            assert forall|k: int| 0 <= k < a2.len() implies match (#[trigger] a2[k], b2[k]) {
                (StanzaView::Comment(x), StanzaView::Comment(y)) => x == y,
                (StanzaView::Test(x), StanzaView::Test(y)) => x.directive_line == y.directive_line
                    && x.input == y.input,
                _ => false,
            } by {
                assert(a2[k] == a[k] && b2[k] == b[k]);
            }
        }
        assert(a.last() == a[a.len() - 1]);
        assert(b.last() == b[b.len() - 1]);
        match a.last() {
            StanzaView::Comment(_) => lemma_skeleton_render(a2, b2, rs),
            StanzaView::Test(_) => lemma_skeleton_render(a2, b2, rs.drop_last()),
        }
    }
}

proof fn lemma_lines_nonempty(x: Seq<char>)
    requires
        x.len() > 0,
    ensures
        lines_of(x).len() > 0,
    decreases x.len(),
{
    if x.len() > 1 {
        lemma_lines_nonempty(x.drop_last());
    }
}

proof fn lemma_input_end_at(ls: Seq<Seq<char>>, a: int, b: int)
    requires
        0 <= a <= b < ls.len(),
        forall|q: int| a <= q < b ==> #[trigger] ls[q] != sep(),
        ls[b] == sep(),
    ensures
        input_end(ls, a) == b,
    decreases b - a,
{
    if a < b {
        lemma_input_end_at(ls, a + 1, b);
    }
}

proof fn lemma_plain_end_at(ls: Seq<Seq<char>>, a: int, b: int)
    requires
        0 <= a <= b <= ls.len(),
        forall|q: int| a <= q < b ==> !is_blank(#[trigger] ls[q]),
        b == ls.len() || is_blank(ls[b]),
    ensures
        plain_end(ls, a) == b,
    decreases b - a,
{
    if a < b {
        lemma_plain_end_at(ls, a + 1, b);
    }
}

proof fn lemma_block_end_at(ls: Seq<Seq<char>>, a: int, b: int)
    requires
        0 <= a <= b,
        forall|q: int| a <= q < b ==> !closes_block(ls, q),
        closes_block(ls, b),
    ensures
        block_end(ls, a) == Some(b),
    decreases b - a,
{
    if a < b {
        lemma_block_end_at(ls, a + 1, b);
    }
}

proof fn lemma_result_lines(r: Seq<char>)
    ensures
        lines_of(result_text(r)) == result_lines(r),
{
    let s = sep();
    assert(clean_line(s));
    assert(clean_line(no_newline()));
    lemma_lines_line(s);
    lemma_lines_line(no_newline());
    let ls = line(s);
    let ln = line(no_newline());
    assert(ls.last() == '\n');
    assert(ln.last() == '\n');
    if r.len() == 0 || r == seq!['\n'] {
    } else if r.last() != '\n' {
        let lr = line(r);
        assert(lr.last() == '\n');
        lemma_lines_append(ls, ls);
        lemma_lines_append(ls + ls, lr);
        lemma_lines_append(ls + ls + lr, ls);
        lemma_lines_append(ls + ls + lr + ls, ln);
        assert((ls + ls).last() == '\n');
        assert((ls + ls + lr).last() == '\n');
        assert((ls + ls + lr + ls).last() == '\n');
        assert(seq![s] + seq![s] =~= seq![s, s]);
        assert(lines_of(result_text(r)) =~= result_lines(r));
    } else if has_blank_line(r) {
        lemma_lines_append(ls, ls);
        lemma_lines_append(ls + ls, r);
        lemma_lines_append(ls + ls + r, ls);
        lemma_lines_append(ls + ls + r + ls, ls);
        assert((ls + ls).last() == '\n');
        assert((ls + ls + r).last() == '\n');
        assert((ls + ls + r + ls).last() == '\n');
        assert(lines_of(result_text(r)) =~= result_lines(r));
    } else {
        lemma_lines_append(ls, r);
        assert(lines_of(result_text(r)) =~= result_lines(r));
    }
}

/// Reading a written case back: a directive line, clean input lines (none a separator),
/// the block of an output that reads back, then `tail` (nothing, or an empty line first).
proof fn lemma_case_reads_back(
    l: Seq<Seq<char>>,
    p: int,
    dl: Seq<char>,
    ins: Seq<Seq<char>>,
    r: Seq<char>,
    tail: Seq<Seq<char>>,
    name: Seq<char>,
    args: ArgsView,
)
    requires
        0 <= p,
        l == l.take(p) + (seq![dl] + ins + result_lines(r)) + tail,
        p <= l.len(),
        forall|k: int| 0 <= k < ins.len() ==> #[trigger] ins[k] != sep(),
        reads_back(r),
        tail.len() == 0 || tail[0].len() == 0,
    ensures
        read_case(l, p, name, args) is Ok,
        read_case(l, p, name, args)->Ok_0.0.directive_line == dl,
        read_case(l, p, name, args)->Ok_0.0.input == join_range(l, p + 1, p + 1 + ins.len()),
        read_case(l, p, name, args)->Ok_0.1 == p + 1 + ins.len() + result_lines(r).len() + 1,
{
    let rl = result_lines(r);
    let a = seq![dl] + ins + rl;
    let q = p + 1 + ins.len();
    assert(l.len() == p + a.len() + tail.len());
    assert forall|k: int| 0 <= k < a.len() implies #[trigger] l[p + k] == a[k] by {
        assert(l[p + k] == (l.take(p) + a + tail)[p + k]);
    }
    assert forall|k: int| 0 <= k < tail.len() implies #[trigger] l[p + a.len() + k] == tail[k] by {
        assert(l[p + a.len() + k] == (l.take(p) + a + tail)[p + a.len() + k]);
    }
    assert(l[p] == a[0]);
    assert(a[0] == dl);
    assert(rl[0] == sep());
    assert(l[q] == a[1 + ins.len() as int]);
    assert(a[1 + ins.len() as int] == rl[0]);
    assert forall|k: int| p + 1 <= k < q implies #[trigger] l[k] != sep() by {
        assert(l[p + (k - p)] == a[k - p]);
        assert(a[k - p] == ins[k - p - 1]);
    }
    lemma_input_end_at(l, p + 1, q);
    let k1 = q + 1;
    let end = p + a.len();
    if r.len() == 0 || r == seq!['\n'] {
        assert(rl.len() == 1);
        assert(k1 == end);
        if k1 < l.len() {
            assert(l[p + a.len() + 0] == tail[0]);
            assert(is_blank(l[k1]));
            assert(l[k1] != sep());
        }
        lemma_plain_end_at(l, k1, k1);
    } else if r.last() != '\n' || has_blank_line(r) {
        let b = rl.subrange(2, rl.len() as int);
        assert(l[k1] == a[2 + ins.len() as int]);
        assert(a[2 + ins.len() as int] == rl[1]);
        assert(rl[1] == sep());
        let bb = if r.last() != '\n' {
            lines_of(line(r)) + seq![sep(), no_newline()]
        } else {
            lines_of(r) + seq![sep(), sep()]
        };
        assert(b =~= bb);
        lemma_block_end(b, 0);
        let t = k1 + 1 + b.len() - 2;
        assert forall|x: int| 0 <= x < b.len() implies #[trigger] l[k1 + 1 + x] == b[x] by {
            assert(l[p + (k1 + 1 + x - p)] == a[k1 + 1 + x - p]);
        }
        assert forall|x: int| k1 + 1 <= x < t implies !closes_block(l, x) by {
            assert(!closes_block(b, x - k1 - 1));
            assert(l[k1 + 1 + (x - k1 - 1)] == b[x - k1 - 1]);
            assert(l[k1 + 1 + (x - k1)] == b[x - k1]);
        }
        assert(closes_block(l, t)) by {
            assert(closes_block(b, b.len() - 2));
            assert(l[k1 + 1 + (b.len() - 2)] == b[b.len() - 2]);
            assert(l[k1 + 1 + (b.len() - 1)] == b[b.len() - 1]);
        }
        lemma_block_end_at(l, k1 + 1, t);
    } else {
        let lr = lines_of(r);
        assert(rl == seq![sep()] + lr);
        assert(l[k1] == a[2 + ins.len() as int]);
        assert(a[2 + ins.len() as int] == lr[0]);
        assert forall|x: int| k1 <= x < end implies !is_blank(#[trigger] l[x]) by {
            assert(l[p + (x - p)] == a[x - p]);
            assert(a[x - p] == lr[x - k1]);
        }
        if end < l.len() {
            assert(l[p + a.len() + 0] == tail[0]);
        }
        lemma_plain_end_at(l, k1, end);
    }
}

/// The lines written for one case and its output.
proof fn lemma_case_text_lines(c: CaseView, ins: Seq<Seq<char>>, r: Seq<char>)
    requires
        clean_line(c.directive_line),
        forall|k: int| 0 <= k < ins.len() ==> clean_line(#[trigger] ins[k]),
        c.input == join_lines(ins),
    ensures
        lines_of(case_text(c, r)) == seq![c.directive_line] + ins + result_lines(r),
        case_text(c, r).last() == '\n',
        case_text(c, r).len() > 0,
{
    let d = line(c.directive_line);
    lemma_lines_line(c.directive_line);
    lemma_lines_join(ins);
    lemma_result_lines(r);
    assert(d.last() == '\n');
    lemma_lines_append(d, c.input);
    if ins.len() > 0 {
        assert(c.input.last() == '\n');
        assert((d + c.input).last() == '\n');
    } else {
        assert(c.input =~= Seq::<char>::empty());
        assert(d + c.input =~= d);
    }
    lemma_lines_append(d + c.input, result_text(r));
    assert(case_text(c, r) =~= d + c.input + result_text(r));
    assert(result_text(r).last() == '\n');
}

proof fn lemma_single_comment(c: Seq<char>)
    ensures
        test_count(seq![StanzaView::Comment(c)]) == 0,
        render(seq![StanzaView::Comment(c)], Seq::empty()) == line(c),
{
    let e = Seq::<StanzaView>::empty();
    let one = seq![StanzaView::Comment(c)];
    assert(one.drop_last() =~= e);
    assert(one.last() == StanzaView::Comment(c));
    assert(test_count(e) == 0);
    assert(render(e, Seq::<Seq<char>>::empty()) =~= Seq::<char>::empty());
    assert(render(one, Seq::empty()) =~= line(c));
}

proof fn lemma_single_case(case: CaseView, r: Seq<char>)
    ensures
        test_count(seq![StanzaView::Test(case)]) == 1,
        render(seq![StanzaView::Test(case)], seq![r]) == case_text(case, r),
{
    let e = Seq::<StanzaView>::empty();
    let two = seq![StanzaView::Test(case)];
    assert(two.drop_last() =~= e);
    assert(two.last() == StanzaView::Test(case));
    assert(test_count(e) == 0);
    assert(render(e, Seq::<Seq<char>>::empty()) =~= Seq::<char>::empty());
    assert(seq![r].drop_last() =~= Seq::<Seq<char>>::empty());
    assert(seq![r].last() == r);
    assert(render(two, seq![r]) =~= case_text(case, r));
}

/// What `lemma_rewrite_scan` states, from line `i` with outputs `rs` after lines `pre`.
pub open spec fn rewrite_reads(ls: Seq<Seq<char>>, i: int, rs: Seq<Seq<char>>, pre: Seq<Seq<char>>) -> bool {
    &&& scan(pre + lines_of(render(scan(ls, i)->Ok_0, rs)), pre.len() as int) is Ok
    &&& same_skeleton(
        scan(pre + lines_of(render(scan(ls, i)->Ok_0, rs)), pre.len() as int)->Ok_0,
        scan(ls, i)->Ok_0,
    )
}

pub open spec fn clean_lines(ls: Seq<Seq<char>>) -> bool {
    forall|k: int| 0 <= k < ls.len() ==> clean_line(#[trigger] ls[k])
}

pub open spec fn all_read_back(rs: Seq<Seq<char>>) -> bool {
    forall|k: int| 0 <= k < rs.len() ==> reads_back(#[trigger] rs[k])
}

proof fn lemma_comment_step(ls: Seq<Seq<char>>, i: int, rs: Seq<Seq<char>>, pre: Seq<Seq<char>>)
    requires
        0 <= i < ls.len(),
        clean_lines(ls),
        is_blank(before_hash(ls[i])),
        scan(ls, i) is Ok,
        rs.len() == test_count(scan(ls, i)->Ok_0),
        rewrite_reads(ls, i + 1, rs, pre + seq![ls[i]]),
    ensures
        rewrite_reads(ls, i, rs, pre),
{
    let c = ls[i];
    let ss = scan(ls, i)->Ok_0;
    let p = pre.len() as int;
    let rest = scan(ls, i + 1)->Ok_0;
    let one = seq![StanzaView::Comment(c)];
    assert(ss == one + rest);
    lemma_single_comment(c);
    lemma_test_count_append(one, rest);
    assert(Seq::<Seq<char>>::empty() + rs =~= rs);
    lemma_render_append(one, rest, Seq::empty(), rs);
    assert(clean_line(c));
    lemma_lines_line(c);
    lemma_lines_append(line(c), render(rest, rs));
    let pre2 = pre + seq![c];
    let l = pre + lines_of(render(ss, rs));
    let l2 = pre2 + lines_of(render(rest, rs));
    assert(l =~= l2);
    assert(l[p] == c);
    let got = scan(l2, p + 1)->Ok_0;
    assert(scan(l, p)->Ok_0 == seq![StanzaView::Comment(c)] + got);
    let x = scan(l, p)->Ok_0;
    assert forall|k: int| 0 <= k < ss.len() implies match (#[trigger] x[k], ss[k]) {
        (StanzaView::Comment(u), StanzaView::Comment(v)) => u == v,
        (StanzaView::Test(u), StanzaView::Test(v)) => u.directive_line == v.directive_line
            && u.input == v.input,
        _ => false,
    } by {
        if k > 0 {
            assert(x[k] == got[k - 1]);
            assert(ss[k] == rest[k - 1]);
        }
    }
}

/// The input lines of the case at line `i`, and what the scanner makes of them.
proof fn lemma_case_inputs(ls: Seq<Seq<char>>, i: int, name: Seq<char>, args: ArgsView)
    requires
        0 <= i < ls.len(),
        clean_lines(ls),
        read_case(ls, i, name, args) is Ok,
    ensures
        ({
            let ins = ls.subrange(i + 1, input_end(ls, i + 1));
            &&& forall|k: int| 0 <= k < ins.len() ==> clean_line(#[trigger] ins[k]) && ins[k] != sep()
            &&& read_case(ls, i, name, args)->Ok_0.0.input == join_lines(ins)
            &&& read_case(ls, i, name, args)->Ok_0.0.directive_line == ls[i]
        }),
{
    lemma_input_end(ls, i + 1);
    let j = input_end(ls, i + 1);
    let ins = ls.subrange(i + 1, j);
    assert forall|k: int| 0 <= k < ins.len() implies clean_line(#[trigger] ins[k]) && ins[k]
        != sep() by {
        assert(ins[k] == ls[i + 1 + k]);
    }
    if i + 1 >= j {
        assert(ins =~= Seq::<Seq<char>>::empty());
        assert(join_lines(ins) =~= Seq::<char>::empty());
    }
}

#[verifier::rlimit(60)]
proof fn lemma_case_step(ls: Seq<Seq<char>>, i: int, rs: Seq<Seq<char>>, pre: Seq<Seq<char>>)
    requires
        0 <= i < ls.len(),
        clean_lines(ls),
        !is_blank(before_hash(ls[i])),
        scan(ls, i) is Ok,
        rs.len() == test_count(scan(ls, i)->Ok_0),
        all_read_back(rs),
        ({
            let (name, args) = directive_spec(before_hash(ls[i]))->Ok_0;
            let (case, next) = read_case(ls, i, name, args)->Ok_0;
            let ins = ls.subrange(i + 1, input_end(ls, i + 1));
            next < ls.len() ==> rewrite_reads(
                ls,
                next,
                rs.subrange(1, rs.len() as int),
                pre + (seq![ls[i]] + ins + result_lines(rs[0]) + seq![Seq::<char>::empty()]),
            )
        }),
    ensures
        rewrite_reads(ls, i, rs, pre),
{
    let n = ls.len() as int;
    let ss = scan(ls, i)->Ok_0;
    let p = pre.len() as int;
    let (name, args) = directive_spec(before_hash(ls[i]))->Ok_0;
    let (case, next) = read_case(ls, i, name, args)->Ok_0;
    lemma_read_case_advances(ls, i, name, args);
    lemma_case_inputs(ls, i, name, args);
    let ins = ls.subrange(i + 1, input_end(ls, i + 1));
    assert(rs.len() > 0) by {
        let one = seq![StanzaView::Test(case)];
        let blank = seq![StanzaView::Comment(seq![])];
        lemma_single_case(case, seq![]);
            lemma_single_comment(seq![]);
        if next < n {
            let rest = scan(ls, next)->Ok_0;
            assert(ss == (one + blank) + rest);
            lemma_test_count_append(one + blank, rest);
            lemma_test_count_append(one, blank);
        } else {
            assert(ss == one);
        }
    }
    let r = rs[0];
    assert(clean_line(ls[i]));
    lemma_case_text_lines(case, ins, r);
    let a = seq![ls[i]] + ins + result_lines(r);
    let one = seq![StanzaView::Test(case)];
    lemma_single_case(case, r);
    lemma_single_comment(seq![]);
    let ct = case_text(case, r);
    if next < n {
        let blank = seq![StanzaView::Comment(seq![])];
        let rest = scan(ls, next)->Ok_0;
        let rs2 = rs.subrange(1, rs.len() as int);
        assert(ss == (one + blank) + rest);
        lemma_test_count_append(one, blank);
        lemma_test_count_append(one + blank, rest);
        assert(rs =~= seq![r] + rs2);
        lemma_render_append(one, blank, seq![r], Seq::empty());
        assert(seq![r] + Seq::<Seq<char>>::empty() =~= seq![r]);
        lemma_render_append(one + blank, rest, seq![r], rs2);
        assert(clean_line(Seq::<char>::empty()));
        lemma_lines_line(seq![]);
        lemma_lines_append(ct, line(seq![]));
        assert((ct + line(seq![])).last() == '\n');
        lemma_lines_append(ct + line(seq![]), render(rest, rs2));
        assert(render(ss, rs) == ct + line(seq![]) + render(rest, rs2));
        let tail_lines = lines_of(render(rest, rs2));
        let pre2 = pre + (a + seq![Seq::<char>::empty()]);
        let l = pre + lines_of(render(ss, rs));
        assert(l =~= pre2 + tail_lines);
        assert(rest.len() > 0);
        assert(render(rest, rs2).len() > 0) by {
            assert(rest.last() == rest[rest.len() - 1]);
        }
        lemma_lines_nonempty(render(rest, rs2));
        let tail = seq![Seq::<char>::empty()] + tail_lines;
        assert(l =~= l.take(p) + a + tail);
        assert(reads_back(r));
        lemma_case_reads_back(l, p, ls[i], ins, r, tail, name, args);
        assert(l[p] == ls[i]);
        let (case2, next2) = read_case(l, p, name, args)->Ok_0;
        assert(next2 == pre2.len());
        assert(case2.input == case.input) by {
            assert(l.subrange(p + 1, p + 1 + ins.len()) =~= ins);
        }
        let got = scan(l, next2)->Ok_0;
        assert(scan(l, p)->Ok_0 == seq![StanzaView::Test(case2), StanzaView::Comment(seq![])]
            + got);
        let x = scan(l, p)->Ok_0;
        assert(ss =~= seq![StanzaView::Test(case), StanzaView::Comment(seq![])] + rest);
        assert forall|k: int| 0 <= k < ss.len() implies match (#[trigger] x[k], ss[k]) {
            (StanzaView::Comment(u), StanzaView::Comment(v)) => u == v,
            (StanzaView::Test(u), StanzaView::Test(v)) => u.directive_line == v.directive_line
                && u.input == v.input,
            _ => false,
        } by {
            if k > 1 {
                assert(x[k] == got[k - 2]);
                assert(ss[k] == rest[k - 2]);
            }
        }
    } else {
        assert(ss == one);
        assert(rs =~= seq![r]);
        let l = pre + lines_of(render(ss, rs));
        assert(l =~= l.take(p) + a + Seq::<Seq<char>>::empty());
        assert(reads_back(r));
        lemma_case_reads_back(l, p, ls[i], ins, r, Seq::empty(), name, args);
        assert(l[p] == ls[i]);
        let (case2, next2) = read_case(l, p, name, args)->Ok_0;
        assert(case2.input == case.input) by {
            assert(l.subrange(p + 1, p + 1 + ins.len()) =~= ins);
        }
        assert(scan(l, p)->Ok_0 == seq![StanzaView::Test(case2)]);
    }
}

/// Writing the stanzas read from line `i` on with outputs that read back, after any lines
/// `pre`, and reading from there gives stanzas of the same shape.
proof fn lemma_rewrite_scan(ls: Seq<Seq<char>>, i: int, rs: Seq<Seq<char>>, pre: Seq<Seq<char>>)
    requires
        0 <= i <= ls.len(),
        clean_lines(ls),
        scan(ls, i) is Ok,
        rs.len() == test_count(scan(ls, i)->Ok_0),
        all_read_back(rs),
    ensures
        rewrite_reads(ls, i, rs, pre),
    decreases ls.len() - i,
{
    let n = ls.len() as int;
    if i == n {
        let ss = scan(ls, i)->Ok_0;
        assert(render(ss, rs) =~= Seq::<char>::empty());
        assert(lines_of(Seq::<char>::empty()) =~= Seq::<Seq<char>>::empty());
        assert(pre + Seq::<Seq<char>>::empty() =~= pre);
    } else if is_blank(before_hash(ls[i])) {
        let one = seq![StanzaView::Comment(ls[i])];
        assert(scan(ls, i)->Ok_0 == one + scan(ls, i + 1)->Ok_0);
        lemma_single_comment(ls[i]);
        lemma_test_count_append(one, scan(ls, i + 1)->Ok_0);
        lemma_rewrite_scan(ls, i + 1, rs, pre + seq![ls[i]]);
        lemma_comment_step(ls, i, rs, pre);
    } else {
        let (name, args) = directive_spec(before_hash(ls[i]))->Ok_0;
        let (case, next) = read_case(ls, i, name, args)->Ok_0;
        lemma_read_case_advances(ls, i, name, args);
        if next < n {
            let ins = ls.subrange(i + 1, input_end(ls, i + 1));
            let rest = scan(ls, next)->Ok_0;
            let ss = scan(ls, i)->Ok_0;
            let one = seq![StanzaView::Test(case)];
            let blank = seq![StanzaView::Comment(seq![])];
            assert(ss == (one + blank) + rest);
            lemma_single_case(case, seq![]);
            lemma_single_comment(seq![]);
            lemma_test_count_append(one, blank);
            lemma_test_count_append(one + blank, rest);
            let rs2 = rs.subrange(1, rs.len() as int);
            assert forall|k: int| 0 <= k < rs2.len() implies reads_back(#[trigger] rs2[k]) by {
                assert(rs2[k] == rs[k + 1]);
            }
            lemma_rewrite_scan(
                ls,
                next,
                rs2,
                pre + (seq![ls[i]] + ins + result_lines(rs[0]) + seq![Seq::<char>::empty()]),
            );
        }
        lemma_case_step(ls, i, rs, pre);
    }
}

/// Idempotent rewrite: writing a parsed file's cases with outputs that read back, parsing
/// the result and writing it with the same outputs gives the same text again. Its lines must
/// not end in a carriage return (a second read would drop it).
pub proof fn lemma_rewrite_idempotent(f: Seq<char>, rs: Seq<Seq<char>>)
    requires
        parse_spec(f) is Ok,
        forall|k: int| 0 <= k < lines_of(f).len() ==> !(#[trigger] lines_of(f)[k].len() > 0
            && lines_of(f)[k].last() == '\r'),
        rs.len() == test_count(parse_spec(f)->Ok_0),
        forall|k: int| 0 <= k < rs.len() ==> reads_back(#[trigger] rs[k]),
    ensures
        parse_spec(render(parse_spec(f)->Ok_0, rs)) is Ok,
        render(parse_spec(render(parse_spec(f)->Ok_0, rs))->Ok_0, rs) == render(
            parse_spec(f)->Ok_0,
            rs,
        ),
{
    let ls = lines_of(f);
    lemma_lines_single(f);
    assert forall|k: int| 0 <= k < ls.len() implies clean_line(#[trigger] ls[k]) by {
        assert(forall|q: int| 0 <= q < ls[k].len() ==> ls[k][q] != '\n');
    }
    let t1 = render(parse_spec(f)->Ok_0, rs);
    lemma_rewrite_scan(ls, 0, rs, Seq::empty());
    assert(rewrite_reads(ls, 0, rs, Seq::empty()));
    assert(Seq::<Seq<char>>::empty() + lines_of(t1) =~= lines_of(t1));
    lemma_skeleton_render(parse_spec(t1)->Ok_0, parse_spec(f)->Ok_0, rs);
}

} // verus!
