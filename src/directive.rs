//! The directive line grammar:
//!
//! ```text
//! directive := word arg*
//! arg       := word ('=' value)?
//! value     := word | '(' ')' | '(' word (',' word)* ')'
//! word      := [A-Za-z0-9_.-]+
//! ```
//!
//! Spaces and tabs separate tokens and are skipped after each of them.
use vstd::prelude::*;
use crate::error::{DataDrivenError, ErrorView};
use crate::text::{chars_of, push_str, string_from};

verus! {

/// An argument list: names in order of appearance, each with its values.
pub type ArgsView = Seq<(Seq<char>, Seq<Seq<char>>)>;

pub open spec fn is_space(c: char) -> bool {
    c == ' ' || c == '\t'
}

pub open spec fn is_word_char(c: char) -> bool {
    ('a' <= c <= 'z') || ('A' <= c <= 'Z') || ('0' <= c <= '9') || c == '-' || c == '_' || c
        == '.'
}

/// The first position at or after `i` that is not a space or tab.
pub open spec fn skip_space(cs: Seq<char>, i: int) -> int
    decreases cs.len() - i,
{
    if 0 <= i < cs.len() && is_space(cs[i]) {
        skip_space(cs, i + 1)
    } else {
        i
    }
}

/// The end of the run of word characters that starts at `i`.
pub open spec fn word_end(cs: Seq<char>, i: int) -> int
    decreases cs.len() - i,
{
    if 0 <= i < cs.len() && is_word_char(cs[i]) {
        word_end(cs, i + 1)
    } else {
        i
    }
}

pub proof fn lemma_skip_space(cs: Seq<char>, i: int)
    requires
        0 <= i,
    ensures
        i <= skip_space(cs, i),
        i <= cs.len() ==> skip_space(cs, i) <= cs.len(),
        skip_space(cs, i) < cs.len() ==> !is_space(cs[skip_space(cs, i)]),
    decreases cs.len() - i,
{
    if 0 <= i < cs.len() && is_space(cs[i]) {
        lemma_skip_space(cs, i + 1);
    }
}

pub proof fn lemma_word_end(cs: Seq<char>, i: int)
    requires
        0 <= i,
    ensures
        i <= word_end(cs, i),
        i <= cs.len() ==> word_end(cs, i) <= cs.len(),
        forall|k: int| i <= k < word_end(cs, i) ==> is_word_char(#[trigger] cs[k]),
        word_end(cs, i) < cs.len() ==> !is_word_char(cs[word_end(cs, i)]),
    decreases cs.len() - i,
{
    if 0 <= i < cs.len() && is_word_char(cs[i]) {
        lemma_word_end(cs, i + 1);
    }
}

/// A word starting at `i`, and the position after it and the spaces that follow.
pub open spec fn word_spec(cs: Seq<char>, i: int, context: Seq<char>) -> Result<
    (Seq<char>, int),
    ErrorView,
> {
    let e = word_end(cs, i);
    if e == i {
        if 0 <= i < cs.len() {
            Err(ErrorView::Parse("expected "@ + context + ", got "@ + seq![cs[i]]))
        } else {
            Err(ErrorView::Parse("expected "@ + context + " but directive line ended"@))
        }
    } else {
        Ok((cs.subrange(i, e), skip_space(cs, e)))
    }
}

/// The rest of a parenthesised list whose next value starts at `i`.
pub open spec fn list_spec(cs: Seq<char>, i: int, acc: Seq<Seq<char>>) -> Result<
    (Seq<Seq<char>>, int),
    ErrorView,
>
    decreases cs.len() - i,
{
    if i < 0 {
        Err(ErrorView::Parse(seq![]))
    } else {
        match word_spec(cs, i, "argument value"@) {
            Err(e) => Err(e),
            Ok((w, k)) => {
                let acc2 = acc.push(w);
                if 0 <= k < cs.len() && cs[k] == ',' {
                    proof {
                        lemma_word_end(cs, i);
                        lemma_skip_space(cs, word_end(cs, i));
                        lemma_skip_space(cs, k + 1);
                    }
                    list_spec(cs, skip_space(cs, k + 1), acc2)
                } else if 0 <= k < cs.len() && cs[k] == ')' {
                    Ok((acc2, skip_space(cs, k + 1)))
                } else if 0 <= k < cs.len() {
                    Err(ErrorView::Parse("expected ',' or ')', got '"@ + seq![cs[k]] + "'"@))
                } else {
                    Err(ErrorView::Parse("expected ',' or '', but directive line ended"@))
                }
            },
        }
    }
}

/// The values of an argument whose name ended just before `i`.
pub open spec fn vals_spec(cs: Seq<char>, i: int) -> Result<(Seq<Seq<char>>, int), ErrorView> {
    if !(0 <= i < cs.len() && cs[i] == '=') {
        Ok((seq![], i))
    } else {
        let j = skip_space(cs, i + 1);
        if !(0 <= j < cs.len() && cs[j] == '(') {
            match word_spec(cs, j, "argument value"@) {
                Err(e) => Err(e),
                Ok((w, k)) => Ok((seq![w], k)),
            }
        } else {
            let k = skip_space(cs, j + 1);
            if 0 <= k < cs.len() && cs[k] == ')' {
                Ok((seq![], skip_space(cs, k + 1)))
            } else {
                list_spec(cs, k, seq![])
            }
        }
    }
}

/// One argument starting at `i`: its name, its values, and where the next token starts.
pub open spec fn arg_spec(cs: Seq<char>, i: int) -> Result<
    (Seq<char>, Seq<Seq<char>>, int),
    ErrorView,
> {
    match word_spec(cs, i, "argument name"@) {
        Err(e) => Err(e),
        Ok((name, j)) => match vals_spec(cs, j) {
            Err(e) => Err(e),
            Ok((vals, k)) => Ok((name, vals, k)),
        },
    }
}

pub open spec fn has_name(args: ArgsView, name: Seq<char>) -> bool {
    exists|k: int| 0 <= k < args.len() && (#[trigger] args[k]).0 == name
}

pub proof fn lemma_list_spec_advances(cs: Seq<char>, i: int, acc: Seq<Seq<char>>)
    requires
        0 <= i,
    ensures
        list_spec(cs, i, acc) is Ok ==> i < list_spec(cs, i, acc)->Ok_0.1,
        list_spec(cs, i, acc) is Ok && i <= cs.len() ==> list_spec(cs, i, acc)->Ok_0.1 <= cs.len(),
    decreases cs.len() - i,
{
    if let Ok((w, k)) = word_spec(cs, i, "argument value"@) {
        lemma_word_end(cs, i);
        lemma_skip_space(cs, word_end(cs, i));
        if 0 <= k < cs.len() && cs[k] == ',' {
            lemma_skip_space(cs, k + 1);
            lemma_list_spec_advances(cs, skip_space(cs, k + 1), acc.push(w));
        } else if 0 <= k < cs.len() && cs[k] == ')' {
            lemma_skip_space(cs, k + 1);
        }
    }
}

pub proof fn lemma_arg_spec_advances(cs: Seq<char>, i: int)
    requires
        0 <= i,
    ensures
        arg_spec(cs, i) is Ok ==> i < arg_spec(cs, i)->Ok_0.2,
        arg_spec(cs, i) is Ok && i <= cs.len() ==> arg_spec(cs, i)->Ok_0.2 <= cs.len(),
{
    if let Ok((name, j)) = word_spec(cs, i, "argument name"@) {
        lemma_word_end(cs, i);
        lemma_skip_space(cs, word_end(cs, i));
        if 0 <= j < cs.len() && cs[j] == '=' {
            let j2 = skip_space(cs, j + 1);
            lemma_skip_space(cs, j + 1);
            if 0 <= j2 < cs.len() && cs[j2] == '(' {
                let k = skip_space(cs, j2 + 1);
                lemma_skip_space(cs, j2 + 1);
                if 0 <= k < cs.len() && cs[k] == ')' {
                    lemma_skip_space(cs, k + 1);
                } else {
                    lemma_list_spec_advances(cs, k, seq![]);
                }
            } else {
                lemma_word_end(cs, j2);
                lemma_skip_space(cs, word_end(cs, j2));
            }
        }
    }
}

/// The arguments from position `i` to the end of the line, after those in `acc`.
pub open spec fn args_spec(cs: Seq<char>, i: int, acc: ArgsView) -> Result<ArgsView, ErrorView>
    decreases cs.len() - i,
{
    if i < 0 || i >= cs.len() {
        Ok(acc)
    } else {
        match arg_spec(cs, i) {
            Err(e) => Err(e),
            Ok((name, vals, k)) => {
                if has_name(acc, name) {
                    Err(ErrorView::Parse("duplicate argument: "@ + name))
                } else {
                    proof {
                        lemma_arg_spec_advances(cs, i);
                    }
                    args_spec(cs, k, acc.push((name, vals)))
                }
            },
        }
    }
}

/// What a directive line (already cut at its comment) stands for: a name and its arguments.
pub open spec fn directive_spec(cs: Seq<char>) -> Result<(Seq<char>, ArgsView), ErrorView> {
    match word_spec(cs, skip_space(cs, 0), "directive"@) {
        Err(e) => Err(e),
        Ok((name, j)) => match args_spec(cs, j, seq![]) {
            Err(e) => Err(e),
            Ok(args) => Ok((name, args)),
        },
    }
}

/// No name occurs twice.
pub open spec fn names_unique(args: ArgsView) -> bool {
    forall|a: int, b: int|
        0 <= a < args.len() && 0 <= b < args.len() && a != b ==> (#[trigger] args[a]).0 != (
        #[trigger] args[b]).0
}

pub proof fn lemma_args_spec_unique(cs: Seq<char>, i: int, acc: ArgsView)
    requires
        names_unique(acc),
    ensures
        args_spec(cs, i, acc) matches Ok(args) ==> names_unique(args),
    decreases cs.len() - i,
{
    if 0 <= i < cs.len() {
        if let Ok((name, vals, k)) = arg_spec(cs, i) {
            if !has_name(acc, name) {
                lemma_arg_spec_advances(cs, i);
                let acc2 = acc.push((name, vals));
                assert(names_unique(acc2)) by {
                    assert forall|a: int, b: int|
                        0 <= a < acc2.len() && 0 <= b < acc2.len() && a != b implies (
                    #[trigger] acc2[a]).0 != (#[trigger] acc2[b]).0 by {
                        if a < acc.len() && b < acc.len() {
                            assert(acc2[a] == acc[a] && acc2[b] == acc[b]);
                        } else if a < acc.len() {
                            assert(acc2[a] == acc[a]);
                        } else if b < acc.len() {
                            assert(acc2[b] == acc[b]);
                        }
                    }
                }
                lemma_args_spec_unique(cs, k, acc2);
            }
        }
    }
}

/// The names of a parsed directive's arguments are distinct.
pub proof fn lemma_directive_names_unique(cs: Seq<char>)
    ensures
        directive_spec(cs) matches Ok((_, args)) ==> names_unique(args),
{
    if let Ok((name, j)) = word_spec(cs, skip_space(cs, 0), "directive"@) {
        lemma_args_spec_unique(cs, j, seq![]);
    }
}

/// A parser over the characters of one directive line.
pub struct DirectiveParser {
    pub chars: Vec<char>,
    pub idx: usize,
}

/// The three texts, one after the other.
pub fn concat3(a: &str, b: &str, c: &str) -> (r: Vec<char>)
    ensures
        r@ == a@ + b@ + c@,
{
    let mut v: Vec<char> = Vec::new();
    push_str(&mut v, a);
    push_str(&mut v, b);
    push_str(&mut v, c);
    assert(v@ =~= a@ + b@ + c@);
    v
}

impl DirectiveParser {
    pub fn new(s: &str) -> (r: Self)
        ensures
            r.chars@ == s@,
            r.idx == 0,
    {
        DirectiveParser { chars: chars_of(s), idx: 0 }
    }

    pub fn from_chars(chars: Vec<char>) -> (r: Self)
        ensures
            r.chars == chars,
            r.idx == 0,
    {
        DirectiveParser { chars, idx: 0 }
    }

    /// Skips spaces and tabs.
    pub fn munch(&mut self)
        requires
            old(self).idx <= old(self).chars@.len(),
        ensures
            final(self).chars == old(self).chars,
            final(self).idx == skip_space(old(self).chars@, old(self).idx as int),
            final(self).idx <= final(self).chars@.len(),
    {
        while self.idx < self.chars.len() && (self.chars[self.idx] == ' ' || self.chars[self.idx]
            == '\t')
            invariant
                self.chars == old(self).chars,
                self.idx <= self.chars@.len(),
                skip_space(self.chars@, self.idx as int) == skip_space(
                    old(self).chars@,
                    old(self).idx as int,
                ),
            decreases self.chars.len() - self.idx,
        {
            self.idx += 1;
        }
    }

    pub fn peek(&self) -> (r: Option<char>)
        ensures
            r == (if self.idx < self.chars@.len() {
                Some(self.chars@[self.idx as int])
            } else {
                None
            }),
    {
        if self.idx >= self.chars.len() {
            None
        } else {
            Some(self.chars[self.idx])
        }
    }

    /// Consumes `ch` if it comes next.
    pub fn eat(&mut self, ch: char) -> (r: bool)
        ensures
            final(self).chars == old(self).chars,
            r == (old(self).idx < old(self).chars@.len() && old(self).chars@[old(
                self,
            ).idx as int] == ch),
            final(self).idx == (if r {
                old(self).idx + 1
            } else {
                old(self).idx as int
            }),
    {
        if self.idx < self.chars.len() && self.chars[self.idx] == ch {
            self.idx += 1;
            true
        } else {
            false
        }
    }

    pub fn is_wordchar(ch: char) -> (r: bool)
        ensures
            r == is_word_char(ch),
    {
        ('a' <= ch && ch <= 'z') || ('A' <= ch && ch <= 'Z') || ('0' <= ch && ch <= '9') || ch
            == '-' || ch == '_' || ch == '.'
    }

    pub fn at_end(&self) -> (r: bool)
        ensures
            r == (self.idx >= self.chars@.len()),
    {
        self.idx >= self.chars.len()
    }

    /// Reads a word and the spaces after it.
    pub fn parse_word(&mut self, context: &str) -> (r: Result<String, DataDrivenError>)
        requires
            old(self).idx <= old(self).chars@.len(),
        ensures
            final(self).chars == old(self).chars,
            final(self).idx <= final(self).chars@.len(),
            match word_spec(old(self).chars@, old(self).idx as int, context@) {
                Ok((w, j)) => r matches Ok(s) && s@ == w && final(self).idx == j,
                Err(e) => r matches Err(x) && x@ == e,
            },
            r is Err ==> final(self).idx == old(self).idx,
    {
        let start = self.idx;
        proof {
            lemma_word_end(self.chars@, start as int);
        }
        while self.idx < self.chars.len() && Self::is_wordchar(self.chars[self.idx])
            invariant
                self.chars == old(self).chars,
                start <= self.idx <= self.chars@.len(),
                word_end(self.chars@, self.idx as int) == word_end(self.chars@, start as int),
            decreases self.chars.len() - self.idx,
        {
            self.idx += 1;
        }
        if self.idx == start {
            return match self.peek() {
                Some(ch) => {
                    let mut v = concat3("expected ", context, ", got ");
                    v.push(ch);
                    assert(v@ =~= "expected "@ + context@ + ", got "@ + seq![ch]);
                    Err(DataDrivenError::Parse(string_from(v.as_slice())))
                },
                None => {
                    let v = concat3("expected ", context, " but directive line ended");
                    Err(DataDrivenError::Parse(string_from(v.as_slice())))
                },
            };
        }
        let mut w: Vec<char> = Vec::new();
        let mut k: usize = start;
        while k < self.idx
            invariant
                start <= k <= self.idx <= self.chars@.len(),
                w@ == self.chars@.subrange(start as int, k as int),
            decreases self.idx - k,
        {
            w.push(self.chars[k]);
            k += 1;
            assert(w@ =~= self.chars@.subrange(start as int, k as int));
        }
        let result = string_from(w.as_slice());
        let ghost e = self.idx;
        self.munch();
        proof {
            lemma_skip_space(self.chars@, e as int);
        }
        Ok(result)
    }
}


/// Whether one of the arguments is called `name`.
fn contains_name(args: &Vec<(String, Vec<String>)>, name: &String) -> (r: bool)
    ensures
        r == has_name(args.deep_view(), name@),
{
    let mut i: usize = 0;
    while i < args.len()
        invariant
            i <= args@.len(),
            forall|k: int| 0 <= k < i ==> (#[trigger] args.deep_view()[k]).0 != name@,
        decreases args.len() - i,
    {
        if args[i].0 == *name {
            assert(args.deep_view()[i as int].0 == name@);
            return true;
        }
        i += 1;
    }
    false
}

impl DirectiveParser {
    /// Reads the values of an argument, starting at its `=` if it has one.
    pub fn parse_vals(&mut self) -> (r: Result<Vec<String>, DataDrivenError>)
        requires
            old(self).idx <= old(self).chars@.len(),
        ensures
            final(self).chars == old(self).chars,
            final(self).idx <= final(self).chars@.len(),
            match vals_spec(old(self).chars@, old(self).idx as int) {
                Ok((vs, k)) => r matches Ok(v) && v.deep_view() == vs && final(self).idx == k,
                Err(e) => r matches Err(x) && x@ == e,
            },
    {
        if !self.eat('=') {
            let v: Vec<String> = Vec::new();
            assert(v.deep_view() =~= Seq::<Seq<char>>::empty());
            return Ok(v);
        }
        self.munch();
        proof {
            lemma_skip_space(self.chars@, old(self).idx + 1);
        }
        if !self.eat('(') {
            return match self.parse_word("argument value") {
                Ok(w) => {
                    let v = vec![w];
                    assert(v.deep_view() =~= seq![w@]);
                    Ok(v)
                },
                Err(e) => Err(e),
            };
        }
        let ghost j = self.idx - 1;
        self.munch();
        proof {
            lemma_skip_space(self.chars@, j + 1);
        }
        if let Some(c) = self.peek() {
            assert(self.idx < self.chars.len());
            if c == ')' {
                self.idx += 1;
                self.munch();
                let v: Vec<String> = Vec::new();
                assert(v.deep_view() =~= Seq::<Seq<char>>::empty());
                return Ok(v);
            }
        }
        let ghost k0 = self.idx as int;
        let mut vals: Vec<String> = Vec::new();
        assert(vals.deep_view() =~= Seq::<Seq<char>>::empty());
        loop
            invariant
                self.chars == old(self).chars,
                self.idx <= self.chars@.len(),
                list_spec(self.chars@, self.idx as int, vals.deep_view()) == list_spec(
                    self.chars@,
                    k0,
                    seq![],
                ),
                vals_spec(old(self).chars@, old(self).idx as int) == list_spec(
                    self.chars@,
                    k0,
                    seq![],
                ),
            decreases self.chars@.len() - self.idx,
        {
            let ghost i = self.idx as int;
            let ghost acc = vals.deep_view();
            let w = match self.parse_word("argument value") {
                Ok(w) => w,
                Err(e) => {
                    return Err(e);
                },
            };
            proof {
                lemma_word_end(self.chars@, i);
                lemma_skip_space(self.chars@, word_end(self.chars@, i));
            }
            vals.push(w);
            assert(vals.deep_view() =~= acc.push(w@));
            if self.eat(',') {
                let ghost k = self.idx - 1;
                self.munch();
                proof {
                    lemma_skip_space(self.chars@, k + 1);
                }
            } else {
                return match self.peek() {
                    Some(ch) => {
                        assert(self.idx < self.chars.len());
                        if ch == ')' {
                            self.idx += 1;
                            self.munch();
                            Ok(vals)
                        } else {
                            let mut v = concat3("expected ',' or ')', got '", "", "");
                            v.push(ch);
                            push_str(&mut v, "'");
                            assert(v@ =~= "expected ',' or ')', got '"@ + seq![ch] + "'"@) by {
                                assert(""@ =~= Seq::<char>::empty()) by {
                                    reveal_strlit("");
                                }
                            }
                            Err(DataDrivenError::Parse(string_from(v.as_slice())))
                        }
                    },
                    None => {
                        let v = concat3("expected ',' or '', but directive line ended", "", "");
                        assert(v@ =~= "expected ',' or '', but directive line ended"@) by {
                            assert(""@ =~= Seq::<char>::empty()) by {
                                reveal_strlit("");
                            }
                        }
                        Err(DataDrivenError::Parse(string_from(v.as_slice())))
                    },
                };
            }
        }
    }

    /// Reads one argument: its name and its values.
    pub fn parse_arg(&mut self) -> (r: Result<(String, Vec<String>), DataDrivenError>)
        requires
            old(self).idx <= old(self).chars@.len(),
        ensures
            final(self).chars == old(self).chars,
            final(self).idx <= final(self).chars@.len(),
            match arg_spec(old(self).chars@, old(self).idx as int) {
                Ok((name, vs, k)) => r matches Ok((n, v)) && n@ == name && v.deep_view() == vs
                    && final(self).idx == k,
                Err(e) => r matches Err(x) && x@ == e,
            },
    {
        let name = match self.parse_word("argument name") {
            Ok(n) => n,
            Err(e) => {
                return Err(e);
            },
        };
        match self.parse_vals() {
            Ok(vals) => Ok((name, vals)),
            Err(e) => Err(e),
        }
    }

    /// Reads a whole directive line: its name, then its arguments up to the end.
    pub fn parse_directive(&mut self) -> (r: Result<
        (String, Vec<(String, Vec<String>)>),
        DataDrivenError,
    >)
        requires
            old(self).idx == 0,
        ensures
            final(self).chars == old(self).chars,
            match directive_spec(old(self).chars@) {
                Ok((name, args)) => r matches Ok((n, a)) && n@ == name && a.deep_view() == args,
                Err(e) => r matches Err(x) && x@ == e,
            },
    {
        self.munch();
        proof {
            lemma_skip_space(self.chars@, 0);
        }
        let directive = match self.parse_word("directive") {
            Ok(d) => d,
            Err(e) => {
                return Err(e);
            },
        };
        let ghost j = self.idx as int;
        let mut args: Vec<(String, Vec<String>)> = Vec::new();
        assert(args.deep_view() =~= Seq::<(Seq<char>, Seq<Seq<char>>)>::empty());
        while !self.at_end()
            invariant
                self.chars == old(self).chars,
                self.idx <= self.chars@.len(),
                word_spec(self.chars@, skip_space(self.chars@, 0), "directive"@) == Ok::<
                    (Seq<char>, int),
                    ErrorView,
                >((directive@, j)),
                args_spec(self.chars@, self.idx as int, args.deep_view()) == args_spec(
                    self.chars@,
                    j,
                    seq![],
                ),
            decreases self.chars@.len() - self.idx,
        {
            let ghost i = self.idx as int;
            let ghost acc = args.deep_view();
            proof {
                lemma_arg_spec_advances(self.chars@, i);
            }
            let (name, vals) = match self.parse_arg() {
                Ok(a) => a,
                Err(e) => {
                    return Err(e);
                },
            };
            if contains_name(&args, &name) {
                let v = concat3("duplicate argument: ", name.as_str(), "");
                assert(v@ =~= "duplicate argument: "@ + name@) by {
                    assert(""@ =~= Seq::<char>::empty()) by {
                        reveal_strlit("");
                    }
                }
                return Err(DataDrivenError::Parse(string_from(v.as_slice())));
            }
            let ghost entry = (name@, vals.deep_view());
            args.push((name, vals));
            assert(args.deep_view() =~= acc.push(entry));
        }
        Ok((directive, args))
    }
}

} // verus!
