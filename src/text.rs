//! Character-level helpers: whitespace, line splitting, joining and decimal rendering.
use vstd::prelude::*;
use vstd::std_specs::iter::IteratorSpec;

verus! {

/// The Unicode `White_Space` property.
pub open spec fn is_white_space(c: char) -> bool {
    let u = c as u32;
    (9 <= u <= 13) || u == 32 || u == 0x85 || u == 0xa0 || u == 0x1680 || (0x2000 <= u <= 0x200a)
        || u == 0x2028 || u == 0x2029 || u == 0x202f || u == 0x205f || u == 0x3000
}

/// A line that holds nothing but whitespace (or nothing at all).
pub open spec fn is_blank(s: Seq<char>) -> bool {
    forall|i: int| 0 <= i < s.len() ==> is_white_space(#[trigger] s[i])
}

/// Index of the first `#` at or after `i`, or the length when there is none.
pub open spec fn hash_index(s: Seq<char>, i: int) -> int
    decreases s.len() - i,
{
    if i >= s.len() {
        s.len() as int
    } else if s[i] == '#' {
        i
    } else {
        hash_index(s, i + 1)
    }
}

/// The part of a line that comes before its first `#`.
pub open spec fn before_hash(s: Seq<char>) -> Seq<char> {
    s.take(hash_index(s, 0))
}

/// Drops one carriage return at the end.
pub open spec fn strip_cr(s: Seq<char>) -> Seq<char> {
    if s.len() > 0 && s.last() == '\r' {
        s.drop_last()
    } else {
        s
    }
}

/// The lines completed so far and the unfinished last line, after reading `s`.
pub open spec fn split_state(s: Seq<char>) -> (Seq<Seq<char>>, Seq<char>)
    decreases s.len(),
{
    if s.len() == 0 {
        (seq![], seq![])
    } else {
        let (done, cur) = split_state(s.drop_last());
        if s.last() == '\n' {
            (done.push(strip_cr(cur)), seq![])
        } else {
            (done, cur.push(s.last()))
        }
    }
}

/// The lines of a text: split at `\n`, a `\r` before the `\n` dropped, and no empty line
/// after a final line ending.
pub open spec fn lines_of(s: Seq<char>) -> Seq<Seq<char>> {
    let (done, cur) = split_state(s);
    if cur.len() == 0 {
        done
    } else {
        done.push(cur)
    }
}

/// Each line followed by a line ending.
pub open spec fn join_lines(ls: Seq<Seq<char>>) -> Seq<char>
    decreases ls.len(),
{
    if ls.len() == 0 {
        seq![]
    } else {
        join_lines(ls.drop_last()) + ls.last() + seq!['\n']
    }
}

/// Lines `a` up to (not including) `b`, each followed by a line ending.
pub open spec fn join_range(ls: Seq<Seq<char>>, a: int, b: int) -> Seq<char> {
    if 0 <= a < b <= ls.len() {
        join_lines(ls.subrange(a, b))
    } else {
        seq![]
    }
}

/// A text whose lines give it back when joined: empty, or ending in `\n` with no `\r\n`.
pub open spec fn plain_line_endings(s: Seq<char>) -> bool {
    &&& (s.len() == 0 || s.last() == '\n')
    &&& forall|i: int| 0 <= i < s.len() - 1 ==> !(s[i] == '\r' && #[trigger] s[i + 1] == '\n')
}

pub open spec fn digit_char(d: nat) -> char {
    if d == 0 {
        '0'
    } else if d == 1 {
        '1'
    } else if d == 2 {
        '2'
    } else if d == 3 {
        '3'
    } else if d == 4 {
        '4'
    } else if d == 5 {
        '5'
    } else if d == 6 {
        '6'
    } else if d == 7 {
        '7'
    } else if d == 8 {
        '8'
    } else {
        '9'
    }
}

/// The decimal digits of `n`, most significant first.
pub open spec fn decimal(n: nat) -> Seq<char>
    decreases n,
{
    if n < 10 {
        seq![digit_char(n)]
    } else {
        decimal(n / 10).push(digit_char(n % 10))
    }
}

pub proof fn lemma_join_append(a: Seq<Seq<char>>, b: Seq<Seq<char>>)
    ensures
        join_lines(a + b) == join_lines(a) + join_lines(b),
    decreases b.len(),
{
    if b.len() == 0 {
        assert(a + b =~= a);
    } else {
        lemma_join_append(a, b.drop_last());
        assert((a + b).drop_last() =~= a + b.drop_last());
        assert(join_lines(a + b) =~= join_lines(a) + join_lines(b));
    }
}

/// Joining a range: its first line, then the rest.
pub proof fn lemma_join_range_front(ls: Seq<Seq<char>>, a: int, b: int)
    requires
        0 <= a < b <= ls.len(),
    ensures
        join_range(ls, a, b) == ls[a] + seq!['\n'] + join_range(ls, a + 1, b),
{
    let one = seq![ls[a]];
    assert(ls.subrange(a, b) =~= one + ls.subrange(a + 1, b));
    lemma_join_append(one, ls.subrange(a + 1, b));
    assert(one.drop_last() =~= Seq::<Seq<char>>::empty());
    assert(join_lines(Seq::<Seq<char>>::empty()) =~= Seq::<char>::empty());
    assert(one.last() == ls[a]);
    assert(join_lines(one) =~= ls[a] + seq!['\n']);
    if a + 1 == b {
        assert(ls.subrange(a + 1, b) =~= Seq::<Seq<char>>::empty());
    }
    assert(join_range(ls, a, b) =~= ls[a] + seq!['\n'] + join_range(ls, a + 1, b));
}

/// Joining a range: all but its last line, then the last.
pub proof fn lemma_join_range_back(ls: Seq<Seq<char>>, a: int, b: int)
    requires
        0 <= a <= b < ls.len(),
    ensures
        join_range(ls, a, b + 1) == join_range(ls, a, b) + ls[b] + seq!['\n'],
{
    assert(ls.subrange(a, b + 1).drop_last() =~= ls.subrange(a, b));
    assert(ls.subrange(a, b + 1).last() == ls[b]);
    if a == b {
        assert(ls.subrange(a, b) =~= Seq::<Seq<char>>::empty());
        assert(join_lines(Seq::<Seq<char>>::empty()) =~= Seq::<char>::empty());
    }
    assert(join_range(ls, a, b + 1) =~= join_range(ls, a, b) + ls[b] + seq!['\n']);
}

/// Joining `[a, c)` is joining `[a, b)` and then `[b, c)`.
pub proof fn lemma_join_range_split(ls: Seq<Seq<char>>, a: int, b: int, c: int)
    requires
        0 <= a <= b <= c <= ls.len(),
    ensures
        join_range(ls, a, c) == join_range(ls, a, b) + join_range(ls, b, c),
{
    assert(ls.subrange(a, c) =~= ls.subrange(a, b) + ls.subrange(b, c));
    lemma_join_append(ls.subrange(a, b), ls.subrange(b, c));
    if a == b {
        assert(ls.subrange(a, b) =~= Seq::<Seq<char>>::empty());
        assert(join_range(ls, a, c) =~= join_range(ls, b, c));
    } else if b == c {
        assert(ls.subrange(b, c) =~= Seq::<Seq<char>>::empty());
        assert(join_range(ls, a, c) =~= join_range(ls, a, b));
    }
}

/// What `split_state` leaves over rebuilds the text read so far.
proof fn lemma_split_state_rebuilds(s: Seq<char>)
    requires
        forall|i: int| 0 <= i < s.len() - 1 ==> !(s[i] == '\r' && #[trigger] s[i + 1] == '\n'),
    ensures
        join_lines(split_state(s).0) + split_state(s).1 == s,
        split_state(s).1.len() > 0 ==> split_state(s).1.last() == s.last(),
        split_state(s).1.len() > 0 ==> split_state(s).1.last() != '\n',
    decreases s.len(),
{
    if s.len() > 0 {
        let p = s.drop_last();
        assert forall|i: int| 0 <= i < p.len() - 1 implies !(p[i] == '\r' && #[trigger] p[i + 1]
            == '\n') by {
            assert(s[i + 1] == p[i + 1]);
        }
        lemma_split_state_rebuilds(p);
        let (done, cur) = split_state(p);
        assert(s =~= p.push(s.last()));
        if s.last() == '\n' {
            if cur.len() > 0 {
                assert(s[s.len() - 2] == p.last());
                assert(!(s[s.len() - 2] == '\r' && s[s.len() - 2 + 1] == '\n'));
                assert(cur.last() != '\r');
            }
            assert(strip_cr(cur) == cur);
            assert(done.push(cur).drop_last() =~= done);
            assert(join_lines(split_state(s).0) + split_state(s).1 =~= s);
        } else {
            assert(join_lines(split_state(s).0) + split_state(s).1 =~= s);
        }
    }
}

/// A text with plain line endings is its lines, joined.
pub proof fn lemma_lines_rebuild(s: Seq<char>)
    requires
        plain_line_endings(s),
    ensures
        join_lines(lines_of(s)) == s,
{
    lemma_split_state_rebuilds(s);
    let (done, cur) = split_state(s);
    if cur.len() > 0 {
        assert(false);
    }
    assert(join_lines(done) + cur =~= join_lines(done));
}

/// A line as the scanner sees it: no line ending inside, no carriage return at its end.
pub open spec fn clean_line(x: Seq<char>) -> bool {
    (forall|p: int| 0 <= p < x.len() ==> #[trigger] x[p] != '\n') && !(x.len() > 0 && x.last()
        == '\r')
}

proof fn lemma_split_no_newline(x: Seq<char>)
    requires
        forall|p: int| 0 <= p < x.len() ==> #[trigger] x[p] != '\n',
    ensures
        split_state(x) == (Seq::<Seq<char>>::empty(), x),
    decreases x.len(),
{
    if x.len() > 0 {
        let p = x.drop_last();
        assert forall|q: int| 0 <= q < p.len() implies #[trigger] p[q] != '\n' by {
            assert(p[q] == x[q]);
        }
        lemma_split_no_newline(p);
        assert(x.last() != '\n');
        assert(p.push(x.last()) =~= x);
    }
}

proof fn lemma_split_append(a: Seq<char>, b: Seq<char>)
    requires
        a.len() == 0 || a.last() == '\n',
    ensures
        split_state(a + b) == (split_state(a).0 + split_state(b).0, split_state(b).1),
        split_state(a).1.len() == 0,
    decreases b.len(),
{
    if a.len() > 0 {
        assert(split_state(a).1 =~= Seq::<char>::empty());
    }
    if b.len() == 0 {
        assert(a + b =~= a);
        assert(split_state(a).0 + split_state(b).0 =~= split_state(a).0);
    } else {
        lemma_split_append(a, b.drop_last());
        assert((a + b).drop_last() =~= a + b.drop_last());
        assert((a + b).last() == b.last());
        let (d, c) = split_state(b.drop_last());
        if b.last() == '\n' {
            assert((split_state(a).0 + d).push(strip_cr(c)) =~= split_state(a).0 + d.push(
                strip_cr(c),
            ));
        }
    }
}

/// The lines of two texts, the first empty or ending in a line ending, one after the other.
pub proof fn lemma_lines_append(a: Seq<char>, b: Seq<char>)
    requires
        a.len() == 0 || a.last() == '\n',
    ensures
        lines_of(a + b) == lines_of(a) + lines_of(b),
{
    lemma_split_append(a, b);
    let (d, c) = split_state(b);
    if c.len() > 0 {
        assert((split_state(a).0 + d).push(c) =~= split_state(a).0 + d.push(c));
    }
}

/// A clean line with its line ending is that one line.
pub proof fn lemma_lines_line(x: Seq<char>)
    requires
        clean_line(x),
    ensures
        lines_of(x + seq!['\n']) == seq![x],
{
    lemma_split_no_newline(x);
    let y = x + seq!['\n'];
    assert(y.drop_last() =~= x);
    assert(Seq::<Seq<char>>::empty().push(strip_cr(x)) =~= seq![x]);
}

/// Clean lines, joined and split again, are the same lines.
pub proof fn lemma_lines_join(ls: Seq<Seq<char>>)
    requires
        forall|k: int| 0 <= k < ls.len() ==> clean_line(#[trigger] ls[k]),
    ensures
        lines_of(join_lines(ls)) == ls,
    decreases ls.len(),
{
    if ls.len() == 0 {
        assert(lines_of(Seq::<char>::empty()) =~= Seq::<Seq<char>>::empty());
    } else {
        let p = ls.drop_last();
        assert forall|k: int| 0 <= k < p.len() implies clean_line(#[trigger] p[k]) by {
            assert(p[k] == ls[k]);
        }
        lemma_lines_join(p);
        assert(clean_line(ls[ls.len() - 1]));
        lemma_lines_line(ls.last());
        let jp = join_lines(p);
        if p.len() > 0 {
            assert(jp.last() == '\n');
        }
        lemma_lines_append(jp, ls.last() + seq!['\n']);
        assert(join_lines(ls) =~= jp + (ls.last() + seq!['\n']));
        assert(p + seq![ls.last()] =~= ls);
    }
}

/// The characters of a string, in order.
pub fn chars_of(s: &str) -> (r: Vec<char>)
    ensures
        r@ == s@,
{
    broadcast use vstd::string::group_string_axioms;

    let mut r: Vec<char> = Vec::new();
    let mut it = s.chars();
    assert(it.remaining() == s@);
    loop
        invariant
            it.obeys_prophetic_iter_laws(),
            r@ + it.remaining() == s@,
            it.decrease() is Some,
        ensures
            r@ == s@,
        decreases it.decrease()->0,
    {
        match it.next() {
            Some(c) => {
                r.push(c);
                assert(r@ + it.remaining() =~= s@);
            },
            None => {
                assert(r@ =~= s@);
                break;
            },
        }
    }
    r
}

/// Relies on `String`'s `FromIterator<&char>`: the string holds the characters in order.
#[verifier::external_body]
pub(crate) fn string_from(cs: &[char]) -> (r: String)
    ensures
        r@ == cs@,
{
    cs.iter().collect()
}

/// Whether `c` has the Unicode `White_Space` property.
pub fn white_space(c: char) -> (r: bool)
    ensures
        r == is_white_space(c),
{
    let u = c as u32;
    (9 <= u && u <= 13) || u == 32 || u == 0x85 || u == 0xa0 || u == 0x1680 || (0x2000 <= u && u
        <= 0x200a) || u == 0x2028 || u == 0x2029 || u == 0x202f || u == 0x205f || u == 0x3000
}

/// Whether a line is empty or whitespace only.
pub fn blank(s: &[char]) -> (r: bool)
    ensures
        r == is_blank(s@),
{
    let mut i: usize = 0;
    while i < s.len()
        invariant
            i <= s@.len(),
            forall|j: int| 0 <= j < i ==> is_white_space(#[trigger] s@[j]),
        decreases s.len() - i,
    {
        if !white_space(s[i]) {
            return false;
        }
        i += 1;
    }
    true
}

/// The part of a line before its first `#`.
pub fn strip_comment(s: &[char]) -> (r: Vec<char>)
    ensures
        r@ == before_hash(s@),
{
    let mut r: Vec<char> = Vec::new();
    let mut i: usize = 0;
    while i < s.len() && s[i] != '#'
        invariant
            i <= s@.len(),
            r@ == s@.take(i as int),
            hash_index(s@, 0) == hash_index(s@, i as int),
        decreases s.len() - i,
    {
        r.push(s[i]);
        i += 1;
        assert(r@ =~= s@.take(i as int));
    }
    r
}

/// Splits a text into its lines.
pub fn split_lines(s: &[char]) -> (r: Vec<Vec<char>>)
    ensures
        r@.len() == lines_of(s@).len(),
        forall|i: int| 0 <= i < r@.len() ==> (#[trigger] r@[i])@ == lines_of(s@)[i],
{
    let mut done: Vec<Vec<char>> = Vec::new();
    let mut cur: Vec<char> = Vec::new();
    let mut i: usize = 0;
    while i < s.len()
        invariant
            i <= s@.len(),
            done@.len() == split_state(s@.take(i as int)).0.len(),
            forall|j: int|
                0 <= j < done@.len() ==> (#[trigger] done@[j])@ == split_state(
                    s@.take(i as int),
                ).0[j],
            cur@ == split_state(s@.take(i as int)).1,
        decreases s.len() - i,
    {
        let c = s[i];
        assert(s@.take(i + 1).drop_last() =~= s@.take(i as int));
        if c == '\n' {
            if cur.len() > 0 && cur[cur.len() - 1] == '\r' {
                cur.pop();
            }
            done.push(cur);
            cur = Vec::new();
        } else {
            cur.push(c);
        }
        i += 1;
    }
    assert(s@.take(i as int) =~= s@);
    if cur.len() > 0 {
        done.push(cur);
    }
    done
}

/// The decimal digits of `n`.
pub fn decimal_chars(n: usize) -> (r: Vec<char>)
    ensures
        r@ == decimal(n as nat),
    decreases n,
{
    let d = n % 10;
    let c = if d == 0 {
        '0'
    } else if d == 1 {
        '1'
    } else if d == 2 {
        '2'
    } else if d == 3 {
        '3'
    } else if d == 4 {
        '4'
    } else if d == 5 {
        '5'
    } else if d == 6 {
        '6'
    } else if d == 7 {
        '7'
    } else if d == 8 {
        '8'
    } else {
        '9'
    };
    if n < 10 {
        vec![c]
    } else {
        let mut r = decimal_chars(n / 10);
        r.push(c);
        r
    }
}

/// Appends the characters of `b` to `a`.
pub fn push_all(a: &mut Vec<char>, b: &[char])
    ensures
        final(a)@ == old(a)@ + b@,
{
    let mut i: usize = 0;
    while i < b.len()
        invariant
            i <= b@.len(),
            a@ == old(a)@ + b@.take(i as int),
        decreases b.len() - i,
    {
        a.push(b[i]);
        i += 1;
        assert(a@ =~= old(a)@ + b@.take(i as int));
    }
    assert(b@.take(i as int) =~= b@);
}

/// Appends the characters of a string to `a`.
pub fn push_str(a: &mut Vec<char>, s: &str)
    ensures
        final(a)@ == old(a)@ + s@,
{
    let cs = chars_of(s);
    push_all(a, cs.as_slice());
}

} // verus!
