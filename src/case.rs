//! A test case, and the typed extraction of its arguments.
use vstd::prelude::*;
use crate::directive::{ArgsView, concat3, names_unique};
use crate::error::{DataDrivenError, ErrorView};
use crate::text::{decimal, decimal_chars, push_all, string_from};

verus! {

/// A single test case within a file.
#[derive(Debug, Clone)]
pub struct TestCase {
    /// The header for a test that denotes what kind of test is being run.
    pub directive: String,
    /// The arguments declared after the directive, each name once, in order of appearance.
    pub args: Vec<(String, Vec<String>)>,
    /// The input to the test.
    pub input: String,
    /// The directive line as it stands in the file.
    pub directive_line: String,
    /// The expected output recorded in the file.
    pub expected: String,
    /// The line of the file where the case starts, counted from one.
    pub line_number: usize,
}

/// An argument list as a map from name to values (a later entry wins over an earlier one).
pub open spec fn arg_map(e: ArgsView) -> Map<Seq<char>, Seq<Seq<char>>>
    decreases e.len(),
{
    if e.len() == 0 {
        Map::empty()
    } else {
        arg_map(e.drop_last()).insert(e.last().0, e.last().1)
    }
}

pub proof fn lemma_arg_map_has(e: ArgsView, k: Seq<char>)
    ensures
        arg_map(e).contains_key(k) <==> exists|i: int| 0 <= i < e.len() && (#[trigger] e[i]).0
            == k,
    decreases e.len(),
{
    if e.len() > 0 {
        lemma_arg_map_has(e.drop_last(), k);
        if arg_map(e.drop_last()).contains_key(k) {
            let i = choose|i: int| 0 <= i < e.drop_last().len() && (#[trigger] e.drop_last()[i]).0
                == k;
            assert(e[i] == e.drop_last()[i]);
        }
        if exists|i: int| 0 <= i < e.len() && (#[trigger] e[i]).0 == k {
            let i = choose|i: int| 0 <= i < e.len() && (#[trigger] e[i]).0 == k;
            if i < e.len() - 1 {
                assert(e.drop_last()[i] == e[i]);
            }
        }
    }
}

pub proof fn lemma_arg_map_at(e: ArgsView, i: int)
    requires
        names_unique(e),
        0 <= i < e.len(),
    ensures
        arg_map(e).contains_key(e[i].0),
        arg_map(e)[e[i].0] == e[i].1,
    decreases e.len(),
{
    if i < e.len() - 1 {
        let p = e.drop_last();
        assert(names_unique(p)) by {
            assert forall|a: int, b: int|
                0 <= a < p.len() && 0 <= b < p.len() && a != b implies (#[trigger] p[a]).0 != (
            #[trigger] p[b]).0 by {
                assert(p[a] == e[a] && p[b] == e[b]);
            }
        }
        assert(p[i] == e[i]);
        lemma_arg_map_at(p, i);
        assert(e[e.len() - 1].0 != e[i].0);
    }
}

pub proof fn lemma_arg_map_remove(e: ArgsView, i: int)
    requires
        names_unique(e),
        0 <= i < e.len(),
    ensures
        names_unique(e.remove(i)),
        arg_map(e.remove(i)) == arg_map(e).remove(e[i].0),
    decreases e.len(),
{
    let r = e.remove(i);
    assert(names_unique(r)) by {
        assert forall|a: int, b: int|
            0 <= a < r.len() && 0 <= b < r.len() && a != b implies (#[trigger] r[a]).0 != (
        #[trigger] r[b]).0 by {
            let a2 = if a < i {
                a
            } else {
                a + 1
            };
            let b2 = if b < i {
                b
            } else {
                b + 1
            };
            assert(r[a] == e[a2] && r[b] == e[b2]);
        }
    }
    let p = e.drop_last();
    assert(names_unique(p)) by {
        assert forall|a: int, b: int|
            0 <= a < p.len() && 0 <= b < p.len() && a != b implies (#[trigger] p[a]).0 != (
        #[trigger] p[b]).0 by {
            assert(p[a] == e[a] && p[b] == e[b]);
        }
    }
    if i == e.len() - 1 {
        assert(r =~= p);
        lemma_arg_map_has(p, e[i].0);
        if arg_map(p).contains_key(e[i].0) {
            let j = choose|j: int| 0 <= j < p.len() && (#[trigger] p[j]).0 == e[i].0;
            assert(p[j] == e[j]);
        }
        assert(arg_map(r) =~= arg_map(e).remove(e[i].0));
    } else {
        lemma_arg_map_remove(p, i);
        assert(r.drop_last() =~= p.remove(i));
        assert(r.last() == e.last());
        assert(e.last().0 != e[i].0);
        assert(arg_map(r) =~= arg_map(e).remove(e[i].0));
    }
}

/// The leftover names, as `expect_empty` reports them.
pub open spec fn names_of(e: ArgsView) -> Seq<Seq<char>> {
    e.map_values(|p: (Seq<char>, Seq<Seq<char>>)| p.0)
}

/// `r` is an argument error with message `m`.
pub open spec fn argument_error<T>(r: Result<T, DataDrivenError>, m: Seq<char>) -> bool {
    r matches Err(e) && e@ == ErrorView::Argument(m)
}

/// The message for a flag given values.
pub open spec fn flag_with_values_message(name: Seq<char>, n: nat) -> Seq<char> {
    "must be no arguments to take_flag, "@ + name + " had "@ + decimal(n)
}

/// The message for an argument that does not have exactly one value.
pub open spec fn arity_message(name: Seq<char>, n: nat) -> Seq<char> {
    "must be exactly one argument to take_arg, "@ + name + " had "@ + decimal(n)
}

/// The message for a missing argument.
pub open spec fn missing_message(name: Seq<char>) -> Seq<char> {
    "no argument named "@ + name
}

/// The message for a value that does not parse.
pub open spec fn unparsable_message(value: Seq<char>) -> Seq<char> {
    "couldn't parse: "@ + value
}

/// Relies on `str::parse` through `T`'s `FromStr`: `None` where it returns an error.
#[verifier::external_body]
fn parse_value<T: std::str::FromStr>(s: &str) -> Option<T> {
    s.parse::<T>().ok()
}

/// The outcome of parsing `value`: the parsed value, or an argument error that names it.
pub fn parsed_value<T>(value: &str, parsed: Option<T>) -> (r: Result<T, DataDrivenError>)
    ensures
        match parsed {
            Some(v) => r == Ok::<T, DataDrivenError>(v),
            None => argument_error(r, unparsable_message(value@)),
        },
{
    match parsed {
        Some(v) => Ok(v),
        None => {
            let m = concat3("couldn't parse: ", value, "");
            assert(m@ =~= unparsable_message(value@)) by {
                assert(""@ =~= Seq::<char>::empty()) by {
                    reveal_strlit("");
                }
            }
            Err(DataDrivenError::Argument(string_from(m.as_slice())))
        },
    }
}

/// `prefix`, `name`, `middle`, then the decimal digits of `n`, as an argument error.
fn counted_error(prefix: &str, name: &str, middle: &str, n: usize) -> (r: DataDrivenError)
    ensures
        r@ == ErrorView::Argument(prefix@ + name@ + middle@ + decimal(n as nat)),
{
    let mut m = concat3(prefix, name, middle);
    let d = decimal_chars(n);
    push_all(&mut m, d.as_slice());
    DataDrivenError::Argument(string_from(m.as_slice()))
}

impl TestCase {
    /// The arguments as a map from name to values.
    pub open spec fn args_view(&self) -> Map<Seq<char>, Seq<Seq<char>>> {
        arg_map(self.args.deep_view())
    }

    /// Each argument name occurs once.
    pub open spec fn wf(&self) -> bool {
        names_unique(self.args.deep_view())
    }

    /// Everything but the arguments is as in `other`.
    pub open spec fn same_but_args(&self, other: &TestCase) -> bool {
        &&& self.directive == other.directive
        &&& self.input == other.input
        &&& self.directive_line == other.directive_line
        &&& self.expected == other.expected
        &&& self.line_number == other.line_number
    }

    /// Removes the argument called `arg` and hands back its values, if it was there.
    fn take_entry(&mut self, arg: &str) -> (r: Option<Vec<String>>)
        requires
            old(self).wf(),
        ensures
            final(self).wf(),
            final(self).same_but_args(old(self)),
            final(self).args_view() == old(self).args_view().remove(arg@),
            r is Some <==> old(self).args_view().contains_key(arg@),
            r matches Some(v) ==> v.deep_view() == old(self).args_view()[arg@],
    {
        let key = String::from_str(arg);
        let mut i: usize = 0;
        while i < self.args.len()
            invariant
                key@ == arg@,
                self == old(self),
                self.wf(),
                i <= self.args@.len(),
                forall|k: int| 0 <= k < i ==> (#[trigger] self.args.deep_view()[k]).0 != arg@,
            decreases self.args.len() - i,
        {
            if self.args[i].0 == key {
                let ghost e = self.args.deep_view();
                proof {
                    lemma_arg_map_at(e, i as int);
                    lemma_arg_map_remove(e, i as int);
                }
                let (_, vals) = self.args.remove(i);
                assert(self.args.deep_view() =~= e.remove(i as int));
                return Some(vals);
            }
            proof {
                assert(self.args.deep_view()[i as int].0 == self.args@[i as int].0@);
            }
            i += 1;
        }
        proof {
            lemma_arg_map_has(self.args.deep_view(), arg@);
            assert(self.args_view().remove(arg@) =~= self.args_view());
        }
        None
    }

    /// Extracts the given flag, removing it. Fails if the flag has values; `true` when the
    /// flag was present.
    pub fn take_flag(&mut self, arg: &str) -> (r: Result<bool, DataDrivenError>)
        requires
            old(self).wf(),
        ensures
            final(self).wf(),
            final(self).same_but_args(old(self)),
            final(self).args_view() == old(self).args_view().remove(arg@),
            !old(self).args_view().contains_key(arg@) ==> r == Ok::<bool, DataDrivenError>(
                false,
            ),
            old(self).args_view().contains_key(arg@) && old(self).args_view()[arg@].len() == 0
                ==> r == Ok::<bool, DataDrivenError>(true),
            old(self).args_view().contains_key(arg@) && old(self).args_view()[arg@].len() > 0
                ==> argument_error(r, flag_with_values_message(arg@, old(self).args_view()[arg@].len())),
    {
        match self.take_entry(arg) {
            Some(vals) => {
                if vals.len() != 0 {
                    Err(counted_error("must be no arguments to take_flag, ", arg, " had ", vals.len()))
                } else {
                    Ok(true)
                }
            },
            None => Ok(false),
        }
    }

    /// Extracts the given argument, removing it if it exists. `None` when it is absent;
    /// fails when it does not have exactly one value or the value does not parse.
    pub fn try_take_arg<T: std::str::FromStr>(&mut self, arg: &str) -> (r: Result<
        Option<T>,
        DataDrivenError,
    >)
        requires
            old(self).wf(),
        ensures
            final(self).wf(),
            final(self).same_but_args(old(self)),
            final(self).args_view() == old(self).args_view().remove(arg@),
            !old(self).args_view().contains_key(arg@) ==> r matches Ok(None),
            old(self).args_view().contains_key(arg@) && old(self).args_view()[arg@].len() != 1
                ==> argument_error(r, arity_message(arg@, old(self).args_view()[arg@].len())),
            old(self).args_view().contains_key(arg@) && old(self).args_view()[arg@].len() == 1
                ==> (r matches Ok(Some(_)) || argument_error(r, unparsable_message(old(self).args_view()[arg@][0]))),
    {
        match self.take_entry(arg) {
            Some(vals) => {
                if vals.len() != 1 {
                    Err(counted_error("must be exactly one argument to take_arg, ", arg, " had ", vals.len()))
                } else {
                    let v = vals[0].as_str();
                    assert(v@ == vals.deep_view()[0]);
                    match parsed_value(v, parse_value::<T>(v)) {
                        Ok(x) => Ok(Some(x)),
                        Err(e) => Err(e),
                    }
                }
            },
            None => Ok(None),
        }
    }

    /// Extracts the given argument, removing it. Fails when it is absent, does not have
    /// exactly one value, or the value does not parse.
    pub fn take_arg<T: std::str::FromStr>(&mut self, arg: &str) -> (r: Result<T, DataDrivenError>)
        requires
            old(self).wf(),
        ensures
            final(self).wf(),
            final(self).same_but_args(old(self)),
            final(self).args_view() == old(self).args_view().remove(arg@),
            !old(self).args_view().contains_key(arg@) ==> argument_error(r, missing_message(arg@)),
            old(self).args_view().contains_key(arg@) && old(self).args_view()[arg@].len() != 1
                ==> argument_error(r, arity_message(arg@, old(self).args_view()[arg@].len())),
            old(self).args_view().contains_key(arg@) && old(self).args_view()[arg@].len() == 1
                ==> (r is Ok || argument_error(r, unparsable_message(old(self).args_view()[arg@][0]))),
    {
        match self.try_take_arg::<T>(arg) {
            Ok(Some(x)) => Ok(x),
            Ok(None) => {
                let m = concat3("no argument named ", arg, "");
                assert(m@ =~= missing_message(arg@)) by {
                    assert(""@ =~= Seq::<char>::empty()) by {
                        reveal_strlit("");
                    }
                }
                Err(DataDrivenError::Argument(string_from(m.as_slice())))
            },
            Err(e) => Err(e),
        }
    }

    /// Extracts the given argument's values, removing it if it exists. `None` when it is
    /// absent; fails when one of the values does not parse.
    pub fn try_take_args<T: std::str::FromStr>(&mut self, arg: &str) -> (r: Result<
        Option<Vec<T>>,
        DataDrivenError,
    >)
        requires
            old(self).wf(),
        ensures
            final(self).wf(),
            final(self).same_but_args(old(self)),
            final(self).args_view() == old(self).args_view().remove(arg@),
            !old(self).args_view().contains_key(arg@) ==> r matches Ok(None),
            old(self).args_view().contains_key(arg@) ==> (r is Ok ==> (r matches Ok(Some(v))
                && v@.len() == old(self).args_view()[arg@].len())),
            old(self).args_view().contains_key(arg@) ==> (r matches Err(e) ==> exists|i: int|
                0 <= i < old(self).args_view()[arg@].len() && e@ == ErrorView::Argument(
                    unparsable_message(#[trigger] old(self).args_view()[arg@][i]),
                )),
    {
        match self.take_entry(arg) {
            Some(vals) => {
                let ghost vs = vals.deep_view();
                let mut out: Vec<T> = Vec::new();
                let mut i: usize = 0;
                while i < vals.len()
                    invariant
                        vs == vals.deep_view(),
                        vs == old(self).args_view()[arg@],
                        old(self).args_view().contains_key(arg@),
                        self.wf(),
                        self.same_but_args(old(self)),
                        self.args_view() == old(self).args_view().remove(arg@),
                        i <= vals@.len(),
                        out@.len() == i,
                    decreases vals.len() - i,
                {
                    let v = vals[i].as_str();
                    assert(v@ == vs[i as int]);
                    match parsed_value(v, parse_value::<T>(v)) {
                        Ok(x) => out.push(x),
                        Err(e) => {
                            return Err(e);
                        },
                    }
                    i += 1;
                }
                Ok(Some(out))
            },
            None => Ok(None),
        }
    }

    /// Extracts the given argument's values, removing it. Fails when it is absent or one of
    /// the values does not parse.
    pub fn take_args<T: std::str::FromStr>(&mut self, arg: &str) -> (r: Result<
        Vec<T>,
        DataDrivenError,
    >)
        requires
            old(self).wf(),
        ensures
            final(self).wf(),
            final(self).same_but_args(old(self)),
            final(self).args_view() == old(self).args_view().remove(arg@),
            !old(self).args_view().contains_key(arg@) ==> argument_error(r, missing_message(arg@)),
            old(self).args_view().contains_key(arg@) ==> (r matches Ok(v) ==> v@.len() == old(
                self,
            ).args_view()[arg@].len()),
            old(self).args_view().contains_key(arg@) ==> (r matches Err(e) ==> exists|i: int|
                0 <= i < old(self).args_view()[arg@].len() && e@ == ErrorView::Argument(
                    unparsable_message(#[trigger] old(self).args_view()[arg@][i]),
                )),
    {
        match self.try_take_args::<T>(arg) {
            Ok(Some(v)) => Ok(v),
            Ok(None) => {
                let m = concat3("no argument named ", arg, "");
                assert(m@ =~= missing_message(arg@)) by {
                    assert(""@ =~= Seq::<char>::empty()) by {
                        reveal_strlit("");
                    }
                }
                Err(DataDrivenError::Argument(string_from(m.as_slice())))
            },
            Err(e) => Err(e),
        }
    }

    /// Fails, naming the leftover arguments, if any argument has not been taken.
    pub fn expect_empty(&self) -> (r: Result<(), DataDrivenError>)
        ensures
            r is Ok <==> self.args_view() == Map::<Seq<char>, Seq<Seq<char>>>::empty(),
            r matches Err(e) ==> e@ == ErrorView::DidntUseAllArguments(
                names_of(self.args.deep_view()),
            ),
    {
        proof {
            let e = self.args.deep_view();
            if e.len() > 0 {
                assert(arg_map(e).contains_key(e.last().0));
                assert(!(Map::<Seq<char>, Seq<Seq<char>>>::empty().contains_key(e.last().0)));
            } else {
                assert(arg_map(e) =~= Map::<Seq<char>, Seq<Seq<char>>>::empty());
            }
        }
        if self.args.len() == 0 {
            Ok(())
        } else {
            let mut keys: Vec<String> = Vec::new();
            let mut i: usize = 0;
            while i < self.args.len()
                invariant
                    i <= self.args@.len(),
                    keys@.map_values(|k: String| k@) == names_of(self.args.deep_view()).take(
                        i as int,
                    ),
                decreases self.args.len() - i,
            {
                let ghost before = keys@;
                keys.push(self.args[i].0.clone());
                assert(self.args.deep_view()[i as int].0 == self.args@[i as int].0@);
                assert(keys@ == before.push(self.args@[i as int].0));
                assert(names_of(self.args.deep_view())[i as int] == self.args@[i as int].0@);
                assert(names_of(self.args.deep_view()).take(i + 1) =~= names_of(
                    self.args.deep_view(),
                ).take(i as int).push(self.args@[i as int].0@));
                assert(keys@.map_values(|k: String| k@) =~= before.map_values(|k: String| k@).push(
                    self.args@[i as int].0@,
                ));
                i += 1;
                assert(keys@.map_values(|k: String| k@) =~= names_of(self.args.deep_view()).take(
                    i as int,
                ));
            }
            assert(names_of(self.args.deep_view()).take(i as int) =~= names_of(
                self.args.deep_view(),
            ));
            Err(DataDrivenError::DidntUseAllArguments(keys))
        }
    }
}

/// The model of a test case.
pub struct CaseView {
    pub directive: Seq<char>,
    pub args: ArgsView,
    pub input: Seq<char>,
    pub directive_line: Seq<char>,
    pub expected: Seq<char>,
    pub line_number: nat,
}

impl View for TestCase {
    type V = CaseView;

    open spec fn view(&self) -> CaseView {
        CaseView {
            directive: self.directive@,
            args: self.args.deep_view(),
            input: self.input@,
            directive_line: self.directive_line@,
            expected: self.expected@,
            line_number: self.line_number as nat,
        }
    }
}

} // verus!
