//! Test files: the scanner that splits a file into stanzas, the serializer that writes them
//! back, and the passes that check or rewrite the cases.
use vstd::prelude::*;
use crate::case::{CaseView, TestCase};
use crate::directive::{ArgsView, DirectiveParser, directive_spec, lemma_directive_names_unique};
use crate::error::{DataDrivenError, ErrorView, at_line, in_file};
use crate::text::{
    before_hash, blank, chars_of, decimal, decimal_chars, is_blank, join_range, lemma_join_range_back,
    lines_of, push_all, split_lines, string_from, strip_comment,
};

verus! {

/// A logical chunk of a test file: a test case, or a line kept as it is.
#[derive(Debug, Clone)]
pub enum Stanza {
    Test(TestCase),
    Comment(String),
}

pub enum StanzaView {
    Test(CaseView),
    Comment(Seq<char>),
}

impl View for Stanza {
    type V = StanzaView;

    open spec fn view(&self) -> StanzaView {
        match self {
            Stanza::Test(c) => StanzaView::Test(c@),
            Stanza::Comment(s) => StanzaView::Comment(s@),
        }
    }
}

pub open spec fn stanzas_view(v: Seq<Stanza>) -> Seq<StanzaView> {
    v.map_values(|s: Stanza| s@)
}

/// The separator line.
pub open spec fn sep() -> Seq<char> {
    seq!['-', '-', '-', '-']
}

/// The line that closes a block whose output has no final line ending.
pub open spec fn no_newline() -> Seq<char> {
    seq!['-', '-', '-', '-', ' ', '(', 'n', 'o', ' ', 'n', 'e', 'w', 'l', 'i', 'n', 'e', ')']
}

/// The first line at or after `j` that is a separator (or the end).
pub open spec fn input_end(ls: Seq<Seq<char>>, j: int) -> int
    decreases ls.len() - j,
{
    if 0 <= j < ls.len() && ls[j] != sep() {
        input_end(ls, j + 1)
    } else {
        j
    }
}

/// The first line at or after `e` that is blank (or the end, or `e` itself past the end).
pub open spec fn plain_end(ls: Seq<Seq<char>>, e: int) -> int
    decreases ls.len() - e,
{
    if 0 <= e < ls.len() && !is_blank(ls[e]) {
        plain_end(ls, e + 1)
    } else {
        e
    }
}

/// Lines `t` and `t + 1` close a double-separator block.
pub open spec fn closes_block(ls: Seq<Seq<char>>, t: int) -> bool {
    0 <= t && t + 1 < ls.len() && ls[t] == sep() && (ls[t + 1] == sep() || ls[t + 1]
        == no_newline())
}

/// The first line at or after `t` that starts the closing pair of a double-separator block.
pub open spec fn block_end(ls: Seq<Seq<char>>, t: int) -> Option<int>
    decreases ls.len() - t,
{
    if t < 0 || t + 1 >= ls.len() {
        None
    } else if closes_block(ls, t) {
        Some(t)
    } else {
        block_end(ls, t + 1)
    }
}

pub proof fn lemma_input_end(ls: Seq<Seq<char>>, j: int)
    requires
        0 <= j <= ls.len(),
    ensures
        j <= input_end(ls, j) <= ls.len(),
        input_end(ls, j) < ls.len() ==> ls[input_end(ls, j)] == sep(),
        forall|k: int| j <= k < input_end(ls, j) ==> (#[trigger] ls[k]) != sep(),
    decreases ls.len() - j,
{
    if 0 <= j < ls.len() && ls[j] != sep() {
        lemma_input_end(ls, j + 1);
    }
}

pub proof fn lemma_plain_end(ls: Seq<Seq<char>>, e: int)
    requires
        0 <= e,
    ensures
        e <= plain_end(ls, e),
        e <= ls.len() ==> plain_end(ls, e) <= ls.len(),
        e > ls.len() ==> plain_end(ls, e) == e,
        plain_end(ls, e) < ls.len() ==> is_blank(ls[plain_end(ls, e)]),
        forall|k: int| e <= k < plain_end(ls, e) ==> !is_blank(#[trigger] ls[k]),
    decreases ls.len() - e,
{
    if 0 <= e < ls.len() && !is_blank(ls[e]) {
        lemma_plain_end(ls, e + 1);
    }
}

pub proof fn lemma_block_end(ls: Seq<Seq<char>>, t: int)
    requires
        0 <= t,
    ensures
        block_end(ls, t) matches Some(b) ==> t <= b && closes_block(ls, b),
        block_end(ls, t) matches Some(b) ==> forall|k: int|
            t <= k < b ==> !closes_block(ls, k),
        block_end(ls, t) is None ==> forall|k: int| t <= k ==> !closes_block(ls, k),
    decreases ls.len() - t,
{
    if !(t < 0 || t + 1 >= ls.len()) && !closes_block(ls, t) {
        lemma_block_end(ls, t + 1);
    }
}

/// The message for a double-separator block that the file never closes.
pub open spec fn unclosed_message(line: nat) -> Seq<char> {
    "unclosed double-separator block for test case starting at line "@ + decimal(line)
}

/// What the expected block of a double-separator case holds: the lines up to the closing
/// pair, without the final line ending when the pair says so.
pub open spec fn block_expected(ls: Seq<Seq<char>>, first: int, t: int) -> Seq<char> {
    let body = join_range(ls, first, t);
    if ls[t + 1] == no_newline() && body.len() > 0 {
        body.drop_last()
    } else {
        body
    }
}

/// A case, then (when lines remain) the blank line it consumed, then the rest of the file.
pub open spec fn case_then(ls: Seq<Seq<char>>, next: int, case: CaseView, rest: Result<
    Seq<StanzaView>,
    ErrorView,
>) -> Result<Seq<StanzaView>, ErrorView> {
    if next < ls.len() {
        match rest {
            Ok(r) => Ok(seq![StanzaView::Test(case), StanzaView::Comment(seq![])] + r),
            Err(e) => Err(e),
        }
    } else {
        Ok(seq![StanzaView::Test(case)])
    }
}

/// The case whose directive line is line `i` (with name and arguments already parsed), and
/// the line after the one that ends it.
pub open spec fn read_case(
    ls: Seq<Seq<char>>,
    i: int,
    name: Seq<char>,
    args: ArgsView,
) -> Result<(CaseView, int), ErrorView> {
    let j = input_end(ls, i + 1);
    let k = j + 1;
    let input = join_range(ls, i + 1, j);
    if k < ls.len() && ls[k] == sep() {
        match block_end(ls, k + 1) {
            None => Err(ErrorView::Parse(unclosed_message((i + 1) as nat))),
            Some(t) => Ok(
                (
                    CaseView {
                        directive: name,
                        args,
                        input,
                        directive_line: ls[i],
                        expected: block_expected(ls, k + 1, t),
                        line_number: (i + 1) as nat,
                    },
                    t + 3,
                ),
            ),
        }
    } else {
        let e = plain_end(ls, k);
        Ok(
            (
                CaseView {
                    directive: name,
                    args,
                    input,
                    directive_line: ls[i],
                    expected: join_range(ls, k, e),
                    line_number: (i + 1) as nat,
                },
                e + 1,
            ),
        )
    }
}

pub proof fn lemma_read_case_advances(ls: Seq<Seq<char>>, i: int, name: Seq<char>, args: ArgsView)
    requires
        0 <= i < ls.len(),
    ensures
        read_case(ls, i, name, args) matches Ok((_, next)) ==> i < next,
{
    lemma_input_end(ls, i + 1);
    let k = input_end(ls, i + 1) + 1;
    if k < ls.len() && ls[k] == sep() {
        lemma_block_end(ls, k + 1);
    } else {
        lemma_plain_end(ls, k);
    }
}

/// The stanzas of the lines from `i` on.
pub open spec fn scan(ls: Seq<Seq<char>>, i: int) -> Result<Seq<StanzaView>, ErrorView>
    decreases ls.len() - i,
{
    if i < 0 || i >= ls.len() {
        Ok(seq![])
    } else if is_blank(before_hash(ls[i])) {
        match scan(ls, i + 1) {
            Ok(rest) => Ok(seq![StanzaView::Comment(ls[i])] + rest),
            Err(e) => Err(e),
        }
    } else {
        match directive_spec(before_hash(ls[i])) {
            Err(e) => Err(at_line(e, (i + 1) as nat)),
            Ok((name, args)) => match read_case(ls, i, name, args) {
                Err(e) => Err(e),
                Ok((case, next)) => {
                    proof {
                        lemma_read_case_advances(ls, i, name, args);
                    }
                    case_then(
                        ls,
                        next,
                        case,
                        if next < ls.len() {
                            scan(ls, next)
                        } else {
                            Ok(seq![])
                        },
                    )
                },
            },
        }
    }
}

/// The stanzas of a file's text.
pub open spec fn parse_spec(f: Seq<char>) -> Result<Seq<StanzaView>, ErrorView> {
    scan(lines_of(f), 0)
}

/// A line and its line ending.
pub open spec fn line(x: Seq<char>) -> Seq<char> {
    x + seq!['\n']
}

/// The text holds an empty line: two line endings in a row.
pub open spec fn has_blank_line(s: Seq<char>) -> bool {
    exists|p: int| 0 <= p && p + 1 < s.len() && s[p] == '\n' && #[trigger] s[p + 1] == '\n'
}

/// How an output is written after a case's input: the separator form that reads back
/// unambiguously.
pub open spec fn result_text(s: Seq<char>) -> Seq<char> {
    if s.len() == 0 || s == seq!['\n'] {
        line(sep())
    } else if s.last() != '\n' {
        line(sep()) + line(sep()) + line(s) + line(sep()) + line(no_newline())
    } else if has_blank_line(s) {
        line(sep()) + line(sep()) + s + line(sep()) + line(sep())
    } else {
        line(sep()) + s
    }
}

/// The text of one case with the given output.
pub open spec fn case_text(c: CaseView, result: Seq<char>) -> Seq<char> {
    line(c.directive_line) + c.input + result_text(result)
}

/// The number of test cases among the stanzas.
pub open spec fn test_count(ss: Seq<StanzaView>) -> nat
    decreases ss.len(),
{
    if ss.len() == 0 {
        0
    } else {
        test_count(ss.drop_last()) + if ss.last() is Test {
            1nat
        } else {
            0nat
        }
    }
}

/// The text of the stanzas, each case written with the next of `results` (taken in order).
pub open spec fn render(ss: Seq<StanzaView>, results: Seq<Seq<char>>) -> Seq<char>
    decreases ss.len(),
{
    if ss.len() == 0 {
        seq![]
    } else {
        match ss.last() {
            StanzaView::Comment(c) => render(ss.drop_last(), results) + line(c),
            StanzaView::Test(c) => render(ss.drop_last(), results.drop_last()) + case_text(
                c,
                results.last(),
            ),
        }
    }
}

/// The expected outputs recorded in the cases, in order.
pub open spec fn expecteds(ss: Seq<StanzaView>) -> Seq<Seq<char>>
    decreases ss.len(),
{
    if ss.len() == 0 {
        seq![]
    } else {
        match ss.last() {
            StanzaView::Comment(_) => expecteds(ss.drop_last()),
            StanzaView::Test(c) => expecteds(ss.drop_last()).push(c.expected),
        }
    }
}

/// The text of the stanzas as they stand, each case with its recorded output.
pub open spec fn file_text(ss: Seq<StanzaView>) -> Seq<char> {
    render(ss, expecteds(ss))
}

/// Whether two character runs are equal.
pub fn same_chars(a: &[char], b: &[char]) -> (r: bool)
    ensures
        r == (a@ == b@),
{
    if a.len() != b.len() {
        return false;
    }
    let mut i: usize = 0;
    while i < a.len()
        invariant
            a@.len() == b@.len(),
            i <= a@.len(),
            forall|k: int| 0 <= k < i ==> a@[k] == b@[k],
        decreases a.len() - i,
    {
        if a[i] != b[i] {
            return false;
        }
        i += 1;
    }
    assert(a@ =~= b@);
    true
}

fn sep_chars() -> (r: Vec<char>)
    ensures
        r@ == sep(),
{
    let r = vec!['-', '-', '-', '-'];
    assert(r@ =~= sep());
    r
}

fn no_newline_chars() -> (r: Vec<char>)
    ensures
        r@ == no_newline(),
{
    let r = vec!['-', '-', '-', '-', ' ', '(', 'n', 'o', ' ', 'n', 'e', 'w', 'l', 'i', 'n', 'e', ')'];
    assert(r@ =~= no_newline());
    r
}

/// The executable lines hold the characters of the model lines.
pub open spec fn lines_match(lines: Seq<Vec<char>>, ls: Seq<Seq<char>>) -> bool {
    lines.len() == ls.len() && forall|k: int| 0 <= k < ls.len() ==> (#[trigger] lines[k])@ == ls[k]
}

/// Lines `a` up to `b`, each followed by a line ending.
fn join_lines_range(ls: &Vec<Vec<char>>, Ghost(v): Ghost<Seq<Seq<char>>>, a: usize, b: usize) -> (r: Vec<char>)
    requires
        a <= b <= ls@.len(),
        lines_match(ls@, v),
    ensures
        r@ == join_range(v, a as int, b as int),
{
    let mut r: Vec<char> = Vec::new();
    let mut k: usize = a;
    while k < b
        invariant
            lines_match(ls@, v),
            a <= k <= b <= ls@.len(),
            r@ == join_range(v, a as int, k as int),
        decreases b - k,
    {
        proof {
            lemma_join_range_back(v, a as int, k as int);
            assert(v[k as int] == ls@[k as int]@);
        }
        push_all(&mut r, ls[k].as_slice());
        r.push('\n');
        k += 1;
        assert(r@ =~= join_range(v, a as int, k as int));
    }
    r
}


/// Whether a text holds two line endings in a row.
fn blank_line_in(s: &[char]) -> (r: bool)
    ensures
        r == has_blank_line(s@),
{
    let mut p: usize = 0;
    while p < s.len()
        invariant
            forall|q: int| 0 <= q < p && q + 1 < s@.len() ==> !(s@[q] == '\n' && #[trigger] s@[q
                + 1] == '\n'),
        decreases s.len() - p,
    {
        if p + 1 < s.len() && s[p] == '\n' && s[p + 1] == '\n' {
            return true;
        }
        p += 1;
    }
    false
}

/// Writes an output after a case's input, in the separator form that reads back.
pub fn write_result(w: &mut String, s: &str)
    ensures
        final(w)@ == old(w)@ + result_text(s@),
{
    proof {
        reveal_strlit("----\n");
        reveal_strlit("----\n----\n");
        reveal_strlit("\n----\n---- (no newline)\n");
        reveal_strlit("\n");
    }
    let cs = chars_of(s);
    let n = cs.len();
    if n == 0 || (n == 1 && cs[0] == '\n') {
        assert(n == 1 ==> s@ =~= seq!['\n']);
        w.append("----\n");
        assert("----\n"@ =~= line(sep()));
    } else if cs[n - 1] != '\n' {
        assert(s@ != seq!['\n']);
        w.append("----\n----\n");
        w.append(s);
        w.append("\n----\n---- (no newline)\n");
        assert("----\n----\n"@ + s@ + "\n----\n---- (no newline)\n"@ =~= line(sep()) + line(
            sep(),
        ) + line(s@) + line(sep()) + line(no_newline()));
    } else if blank_line_in(cs.as_slice()) {
        assert(s@ != seq!['\n']);
        w.append("----\n----\n");
        w.append(s);
        w.append("----\n----\n");
        assert("----\n----\n"@ + s@ + "----\n----\n"@ =~= line(sep()) + line(sep()) + s@ + line(
            sep(),
        ) + line(sep()));
    } else {
        assert(s@ != seq!['\n']);
        w.append("----\n");
        w.append(s);
        assert("----\n"@ + s@ =~= line(sep()) + s@);
    }
    assert(final(w)@ =~= old(w)@ + result_text(s@));
}

/// The text of the stanzas, each case written with the next of `results`.
pub fn render_stanzas(stanzas: &Vec<Stanza>, results: &Vec<String>) -> (r: String)
    requires
        results@.len() == test_count(stanzas_view(stanzas@)),
    ensures
        r@ == render(stanzas_view(stanzas@), results@.map_values(|x: String| x@)),
{
    let ghost ss = stanzas_view(stanzas@);
    let ghost rs = results@.map_values(|x: String| x@);
    let mut w = String::new();
    let mut i: usize = 0;
    let mut k: usize = 0;
    proof {
        reveal_strlit("\n");
    }
    while i < stanzas.len()
        invariant
            ss == stanzas_view(stanzas@),
            rs == results@.map_values(|x: String| x@),
            results@.len() == test_count(ss),
            i <= stanzas@.len(),
            k == test_count(ss.take(i as int)),
            k <= results@.len(),
            w@ == render(ss.take(i as int), rs.take(k as int)),
        decreases stanzas.len() - i,
    {
        proof {
            reveal_strlit("\n");
            lemma_test_count_prefix(ss, i as int + 1);
            assert(ss.take(i + 1).drop_last() =~= ss.take(i as int));
            assert(ss.take(i + 1).last() == stanzas@[i as int]@);
        }
        match &stanzas[i] {
            Stanza::Comment(c) => {
                assert(ss.take(i + 1).last() == StanzaView::Comment(c@));
                assert(test_count(ss.take(i + 1)) == k);
                w.append(c.as_str());
                w.append("\n");
                assert(w@ =~= render(ss.take(i + 1), rs.take(k as int)));
            },
            Stanza::Test(case) => {
                assert(ss.take(i + 1).last() == StanzaView::Test(case@));
                assert(test_count(ss.take(i + 1)) == k + 1);
                assert(k < results.len());
                w.append(case.directive_line.as_str());
                w.append("\n");
                w.append(case.input.as_str());
                write_result(&mut w, results[k].as_str());
                assert(rs.take(k + 1).drop_last() =~= rs.take(k as int));
                assert(rs.take(k + 1).last() == results@[k as int]@);
                k += 1;
                assert(w@ =~= render(ss.take(i + 1), rs.take(k as int)));
            },
        }
        i += 1;
    }
    assert(ss.take(i as int) =~= ss);
    assert(rs.take(k as int) =~= rs);
    w
}

/// The number of cases never falls as the stanzas grow.
proof fn lemma_test_count_prefix(ss: Seq<StanzaView>, n: int)
    requires
        0 <= n <= ss.len(),
    ensures
        test_count(ss.take(n)) <= test_count(ss),
    decreases ss.len(),
{
    if n < ss.len() {
        assert(ss.drop_last().take(n) =~= ss.take(n));
        lemma_test_count_prefix(ss.drop_last(), n);
    } else {
        assert(ss.take(n) =~= ss);
    }
}

/// The recorded outputs of the cases, in order.
fn recorded_outputs(stanzas: &Vec<Stanza>) -> (r: Vec<String>)
    ensures
        r@.map_values(|x: String| x@) == expecteds(stanzas_view(stanzas@)),
        r@.len() == test_count(stanzas_view(stanzas@)),
{
    let ghost ss = stanzas_view(stanzas@);
    let mut r: Vec<String> = Vec::new();
    let mut i: usize = 0;
    while i < stanzas.len()
        invariant
            ss == stanzas_view(stanzas@),
            i <= stanzas@.len(),
            r@.map_values(|x: String| x@) == expecteds(ss.take(i as int)),
            r@.len() == test_count(ss.take(i as int)),
        decreases stanzas.len() - i,
    {
        proof {
            assert(ss.take(i + 1).drop_last() =~= ss.take(i as int));
            assert(ss.take(i + 1).last() == stanzas@[i as int]@);
        }
        match &stanzas[i] {
            Stanza::Comment(_) => {},
            Stanza::Test(case) => {
                r.push(case.expected.clone());
            },
        }
        assert(r@.map_values(|x: String| x@) =~= expecteds(ss.take(i + 1)));
        i += 1;
    }
    assert(ss.take(i as int) =~= ss);
    r
}

/// Reads the case whose directive line is line `i`.
fn read_case_at(
    lines: &Vec<Vec<char>>,
    Ghost(ls): Ghost<Seq<Seq<char>>>,
    i: usize,
    directive: String,
    args: Vec<(String, Vec<String>)>,
) -> (r: Result<(TestCase, bool, usize), DataDrivenError>)
    requires
        lines_match(lines@, ls),
        i < ls.len(),
    ensures
        match read_case(ls, i as int, directive@, args.deep_view()) {
            Ok((cv, next)) => r matches Ok((c, more, nx)) && c@ == cv && more == (next < ls.len())
                && (more ==> nx == next) && (!more ==> nx == ls.len()),
            Err(e) => r matches Err(x) && x@ == e,
        },
{
    let n = lines.len();
    let sep_line = sep_chars();
    let no_nl = no_newline_chars();
    let line_number = i + 1;
    let directive_line = string_from(lines[i].as_slice());
    assert(ls[i as int] == lines@[i as int]@);
    // The input runs up to the first separator line.
    let mut j: usize = i + 1;
    proof {
        lemma_input_end(ls, i + 1);
    }
    while j < n && !same_chars(lines[j].as_slice(), sep_line.as_slice())
        invariant
            n == lines@.len(),
            lines_match(lines@, ls),
            sep_line@ == sep(),
            i + 1 <= j <= n,
            input_end(ls, j as int) == input_end(ls, i + 1),
        decreases n - j,
    {
        assert(ls[j as int] == lines@[j as int]@);
        j += 1;
    }
    if j < n {
        assert(ls[j as int] == lines@[j as int]@);
    }
    assert(input_end(ls, j as int) == j);
    let input = join_lines_range(lines, Ghost(ls), i + 1, j);
    // A second separator right after the first one opens a double-separator block.
    let blank_mode = j < n && j + 1 < n && same_chars(
        lines[j + 1].as_slice(),
        sep_line.as_slice(),
    );
    if j < n && j + 1 < n {
        assert(ls[j + 1] == lines@[j + 1]@);
    }
    // `more` tells whether lines remain after the line that ends the case; `next` is the
    // first of them.
    let mut more = false;
    let mut next: usize = n;
    let expected: Vec<char>;
    if blank_mode {
        let mut t: usize = j + 2;
        proof {
            lemma_block_end(ls, t as int);
        }
        loop
            invariant
                n == lines@.len(),
                lines_match(lines@, ls),
                sep_line@ == sep(),
                no_nl@ == no_newline(),
                j + 2 <= t <= n,
                block_end(ls, t as int) == block_end(ls, j + 2),
                i < j,
                j + 1 < n,
                ls[j + 1] == sep(),
                input_end(ls, i + 1) == j,
                line_number == i + 1,
            ensures
                t + 1 < n,
                block_end(ls, j + 2) == Some(t as int),
            decreases n - t,
        {
            if t >= n || t + 1 >= n {
                let mut m = crate::directive::concat3(
                    "unclosed double-separator block for test case starting at line ",
                    "",
                    "",
                );
                let d = decimal_chars(line_number);
                push_all(&mut m, d.as_slice());
                assert(m@ =~= unclosed_message(line_number as nat)) by {
                    assert(""@ =~= Seq::<char>::empty()) by {
                        reveal_strlit("");
                    }
                }
                assert(block_end(ls, t as int) is None);
                assert(block_end(ls, j + 2) is None);
                return Err(DataDrivenError::Parse(string_from(m.as_slice())));
            }
            assert(ls[t as int] == lines@[t as int]@);
            assert(ls[t + 1] == lines@[t + 1]@);
            if same_chars(lines[t].as_slice(), sep_line.as_slice()) && (same_chars(
                lines[t + 1].as_slice(),
                sep_line.as_slice(),
            ) || same_chars(lines[t + 1].as_slice(), no_nl.as_slice())) {
                break;
            }
            t += 1;
        }
        let mut body = join_lines_range(lines, Ghost(ls), j + 2, t);
        assert(ls[t + 1] == lines@[t + 1]@);
        if same_chars(lines[t + 1].as_slice(), no_nl.as_slice()) && body.len() > 0 {
            body.pop();
        }
        expected = body;
        let after = t + 2;
        if after < n && after + 1 < n {
            more = true;
            next = after + 1;
        }
    } else if j < n {
        // Otherwise the expected output runs up to the first blank line.
        let k = j + 1;
        let mut e: usize = k;
        proof {
            lemma_plain_end(ls, k as int);
        }
        while e < n && !blank(lines[e].as_slice())
            invariant
                n == lines@.len(),
                lines_match(lines@, ls),
                k <= e <= n,
                plain_end(ls, e as int) == plain_end(ls, k as int),
            decreases n - e,
        {
            assert(ls[e as int] == lines@[e as int]@);
            e += 1;
        }
        if e < n {
            assert(ls[e as int] == lines@[e as int]@);
        }
        expected = join_lines_range(lines, Ghost(ls), k, e);
        if e < n && e + 1 < n {
            more = true;
            next = e + 1;
        }
    } else {
        expected = Vec::new();
    }
    let case = TestCase {
        directive,
        args,
        input: string_from(input.as_slice()),
        directive_line,
        expected: string_from(expected.as_slice()),
        line_number,
    };
    Ok((case, more, next))
}

impl TestFile {
    /// Splits a file's text into stanzas.
    pub fn parse(f: &str) -> (r: Result<Vec<Stanza>, DataDrivenError>)
        ensures
            match parse_spec(f@) {
                Ok(ss) => r matches Ok(v) && stanzas_view(v@) == ss,
                Err(e) => r matches Err(x) && x@ == e,
            },
    {
        let text = chars_of(f);
        let lines = split_lines(text.as_slice());
        let ghost ls = lines_of(f@);
        assert(lines_match(lines@, ls));
        let n = lines.len();
        let mut stanzas: Vec<Stanza> = Vec::new();
        let mut i: usize = 0;
        while i < n
            invariant
                n == lines@.len(),
                lines_match(lines@, ls),
                ls == lines_of(f@),
                i <= n,
                scan(ls, 0) == match scan(ls, i as int) {
                    Ok(rest) => Ok(stanzas_view(stanzas@) + rest),
                    Err(e) => Err(e),
                },
            decreases n - i,
        {
            assert(ls[i as int] == lines@[i as int]@);
            let ghost before = stanzas_view(stanzas@);
            let code = strip_comment(lines[i].as_slice());
            assert(code@ == before_hash(ls[i as int]));
            if blank(code.as_slice()) {
                stanzas.push(Stanza::Comment(string_from(lines[i].as_slice())));
                assert(stanzas_view(stanzas@) =~= before.push(StanzaView::Comment(ls[i as int])));
                i += 1;
                proof {
                    match scan(ls, i as int) {
                        Ok(rest) => {
                            assert(before + (seq![StanzaView::Comment(ls[i - 1])] + rest)
                                =~= stanzas_view(stanzas@) + rest);
                        },
                        Err(e) => {},
                    }
                }
                continue;
            }
            let line_number = i + 1;
            let mut parser = DirectiveParser::from_chars(code);
            let (directive, args) = match parser.parse_directive() {
                Ok(d) => d,
                Err(e) => {
                    assert(code@ == before_hash(ls[i as int]));
                    assert(scan(ls, i as int) == Err::<Seq<StanzaView>, ErrorView>(
                        at_line(e@, (i + 1) as nat),
                    ));
                    return Err(e.with_line(line_number));
                },
            };
            proof {
                lemma_directive_names_unique(before_hash(ls[i as int]));
            }
            let ghost name = directive@;
            let ghost argv = args.deep_view();
            proof {
                lemma_read_case_advances(ls, i as int, name, argv);
            }
            let (case, more, next) = match read_case_at(&lines, Ghost(ls), i, directive, args) {
                Ok(x) => x,
                Err(e) => {
                    return Err(e);
                },
            };
            let ghost cv = case@;
            stanzas.push(Stanza::Test(case));
            if more {
                stanzas.push(Stanza::Comment(String::new()));
            }
            proof {
                if more {
                    assert(stanzas_view(stanzas@) =~= before + seq![
                        StanzaView::Test(cv),
                        StanzaView::Comment(seq![]),
                    ]);
                    match scan(ls, next as int) {
                        Ok(rest) => {
                            assert(before + (seq![StanzaView::Test(cv), StanzaView::Comment(seq![])]
                                + rest) =~= stanzas_view(stanzas@) + rest);
                        },
                        Err(e) => {},
                    }
                } else {
                    assert(stanzas_view(stanzas@) =~= before + seq![StanzaView::Test(cv)]);
                    assert(stanzas_view(stanzas@) + Seq::<StanzaView>::empty() =~= stanzas_view(
                        stanzas@,
                    ));
                }
            }
            i = next;
        }
        Ok(stanzas)
    }
}

/// A parsed test file.
#[derive(Debug, Clone)]
pub struct TestFile {
    /// The stanzas of the file, in order.
    pub stanzas: Vec<Stanza>,
    /// The name of the file.
    pub filename: String,
    /// The failure of the last normal pass, if a case failed.
    pub failure: Option<String>,
}

impl TestFile {
    /// Parses the text of the file called `filename`.
    pub fn new(filename: String, contents: &str) -> (r: Result<TestFile, DataDrivenError>)
        ensures
            match parse_spec(contents@) {
                Ok(ss) => r matches Ok(tf) && stanzas_view(tf.stanzas@) == ss && tf.filename
                    == filename && tf.failure is None,
                Err(e) => r matches Err(x) && x@ == in_file(e, filename@),
            },
    {
        match Self::parse(contents) {
            Ok(stanzas) => Ok(TestFile { stanzas, filename, failure: None }),
            Err(e) => Err(e.with_filename(filename)),
        }
    }

    /// The text of the file as its stanzas stand, each case with its recorded output.
    pub fn to_text(&self) -> (r: String)
        ensures
            r@ == file_text(stanzas_view(self.stanzas@)),
    {
        let outputs = recorded_outputs(&self.stanzas);
        render_stanzas(&self.stanzas, &outputs)
    }
}

} // verus!
