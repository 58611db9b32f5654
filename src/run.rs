//! The two passes over a file's cases: the normal pass checks each case's output against the
//! recorded one and stops at the first failure; the rewrite pass writes the file anew with
//! the outputs it gets.
use vstd::prelude::*;
use crate::case::{CaseView, TestCase};
use crate::file::{Stanza, StanzaView, TestFile, render, stanzas_view, test_count, write_result};
use crate::text::{decimal, decimal_chars, string_from};

verus! {

/// What the evaluation of one case gives: its output, or the message of its error.
pub type OutcomeView = Result<Seq<char>, Seq<char>>;

pub open spec fn outcome_view(o: Result<String, String>) -> OutcomeView {
    match o {
        Ok(s) => Ok(s@),
        Err(m) => Err(m@),
    }
}

/// A case passes when it gives exactly its recorded output.
pub open spec fn passes(c: CaseView, out: OutcomeView) -> bool {
    out == Ok::<Seq<char>, Seq<char>>(c.expected)
}

/// The report of a failing case: file, line and input, then either the expected and actual
/// outputs or the error's message.
pub open spec fn failure_message(filename: Seq<char>, c: CaseView, out: OutcomeView) -> Seq<char> {
    let head = "failure:\n"@ + filename + ":"@ + decimal(c.line_number) + ":\n"@ + c.input;
    match out {
        Ok(actual) => head + "\nexpected:\n"@ + c.expected + "\nactual:\n"@ + actual,
        Err(msg) => head + "\n"@ + msg,
    }
}

/// The stanza at `i` was evaluated with outcome `o` and failed.
pub open spec fn failed_at(after: Seq<StanzaView>, outs: Seq<Option<OutcomeView>>, i: int) -> bool {
    &&& 0 <= i < outs.len()
    &&& i < after.len()
    &&& outs[i] is Some
    &&& after[i] is Test
    &&& !passes(after[i]->Test_0, outs[i]->Some_0)
}

/// The part of a normal pass done so far: it went through the stanzas in order, giving an
/// outcome for each case (`outs`, one entry per stanza it reached); every case but the last
/// it reached passed, and a failure of the last one is recorded. The cases it did not reach
/// are as they were; comments are untouched.
pub open spec fn normal_prefix(
    before: Seq<StanzaView>,
    after: Seq<StanzaView>,
    filename: Seq<char>,
    outs: Seq<Option<OutcomeView>>,
    failure_before: Option<Seq<char>>,
    failure_after: Option<Seq<char>>,
) -> bool {
    let m = outs.len() as int;
    &&& m <= before.len()
    &&& after.len() == before.len()
    &&& forall|i: int|
        0 <= i < before.len() ==> (#[trigger] before[i] is Comment ==> after[i] == before[i]) && (
        before[i] is Test ==> after[i] is Test)
    &&& forall|i: int| m <= i < before.len() ==> #[trigger] after[i] == before[i]
    &&& forall|i: int| 0 <= i < m ==> (#[trigger] outs[i] is Some <==> before[i] is Test)
    &&& forall|i: int| 0 <= i < m - 1 ==> !failed_at(after, outs, i)
    &&& failure_after == if failed_at(after, outs, m - 1) {
        Some(failure_message(filename, after[m - 1]->Test_0, outs[m - 1]->Some_0))
    } else {
        failure_before
    }
}

/// A whole normal pass over `before` left `after`: it stopped before the end only at a
/// failing case.
pub open spec fn normal_pass(
    before: Seq<StanzaView>,
    after: Seq<StanzaView>,
    filename: Seq<char>,
    outs: Seq<Option<OutcomeView>>,
    failure_before: Option<Seq<char>>,
    failure_after: Option<Seq<char>>,
) -> bool {
    &&& normal_prefix(before, after, filename, outs, failure_before, failure_after)
    &&& outs.len() < before.len() ==> failed_at(after, outs, outs.len() - 1)
}

/// The outputs that are there, in order.
pub open spec fn somes(outs: Seq<Option<Seq<char>>>) -> Seq<Seq<char>>
    decreases outs.len(),
{
    if outs.len() == 0 {
        seq![]
    } else {
        match outs.last() {
            Some(x) => somes(outs.drop_last()).push(x),
            None => somes(outs.drop_last()),
        }
    }
}

pub open spec fn failure_view(f: Option<String>) -> Option<Seq<char>> {
    match f {
        Some(s) => Some(s@),
        None => None,
    }
}

/// One more stanza of a normal pass.
proof fn lemma_normal_step(
    before: Seq<StanzaView>,
    now: Seq<StanzaView>,
    after: Seq<StanzaView>,
    filename: Seq<char>,
    outs: Seq<Option<OutcomeView>>,
    x: Option<OutcomeView>,
    fb: Option<Seq<char>>,
    fa_now: Option<Seq<char>>,
    fa_after: Option<Seq<char>>,
)
    requires
        normal_prefix(before, now, filename, outs, fb, fa_now),
        outs.len() < before.len(),
        !failed_at(now, outs, outs.len() - 1),
        after.len() == now.len(),
        forall|k: int| 0 <= k < now.len() && k != outs.len() ==> after[k] == now[k],
        before[outs.len() as int] is Comment ==> after[outs.len() as int] == before[outs.len() as int]
            && x is None,
        before[outs.len() as int] is Test ==> after[outs.len() as int] is Test && x is Some,
        fa_after == if failed_at(after, outs.push(x), outs.len() as int) {
            Some(failure_message(filename, after[outs.len() as int]->Test_0, x->Some_0))
        } else {
            fa_now
        },
    ensures
        normal_prefix(before, after, filename, outs.push(x), fb, fa_after),
{
    let i = outs.len() as int;
    let o2 = outs.push(x);
    assert(now[i] == before[i]);
    assert forall|k: int| 0 <= k < i implies failed_at(after, o2, k) == failed_at(now, outs, k) by {
        assert(after[k] == now[k]);
        assert(o2[k] == outs[k]);
    }
    assert forall|k: int| 0 <= k < before.len() implies (#[trigger] before[k] is Comment ==> after[k]
        == before[k]) && (before[k] is Test ==> after[k] is Test) by {
        if k != i {
            assert(after[k] == now[k]);
        }
    }
    assert forall|k: int| i + 1 <= k < before.len() implies #[trigger] after[k] == before[k] by {
        assert(after[k] == now[k]);
    }
    assert forall|k: int| 0 <= k < i + 1 implies (#[trigger] o2[k] is Some <==> before[k] is Test) by {
        if k < i {
            assert(o2[k] == outs[k]);
        }
    }
    assert forall|k: int| 0 <= k < i implies !failed_at(after, o2, k) by {
        if k < i - 1 {
            assert(!failed_at(now, outs, k));
        }
    }
    if !failed_at(after, o2, i) {
        assert(fa_after == fa_now);
        assert(!failed_at(now, outs, i - 1));
    }
}

/// The report of a failing case.
fn failure_report(filename: &String, case: &TestCase, out: &Result<String, String>) -> (r: String)
    ensures
        r@ == failure_message(filename@, case@, outcome_view(*out)),
{
    let mut w = String::new();
    w.append("failure:\n");
    w.append(filename.as_str());
    w.append(":");
    let d = decimal_chars(case.line_number);
    let ds = string_from(d.as_slice());
    w.append(ds.as_str());
    w.append(":\n");
    w.append(case.input.as_str());
    match out {
        Ok(actual) => {
            w.append("\nexpected:\n");
            w.append(case.expected.as_str());
            w.append("\nactual:\n");
            w.append(actual.as_str());
        },
        Err(msg) => {
            w.append("\n");
            w.append(msg.as_str());
        },
    }
    assert(w@ =~= failure_message(filename@, case@, outcome_view(*out)));
    w
}

/// The failure report of a case that gave `out`, or `None` when the case passes.
pub fn check_outcome(filename: &String, case: &TestCase, out: &Result<String, String>) -> (r:
    Option<String>)
    ensures
        r is None <==> passes(case@, outcome_view(*out)),
        r matches Some(m) ==> m@ == failure_message(filename@, case@, outcome_view(*out)),
{
    let failed = match out {
        Ok(actual) => *actual != case.expected,
        Err(_) => true,
    };
    if failed {
        Some(failure_report(filename, case, out))
    } else {
        None
    }
}

impl TestFile {
    /// The first case at or after stanza `from`, if any: where a pass that runs its cases one
    /// at a time goes next.
    pub fn next_case(&self, from: usize) -> (r: Option<usize>)
        ensures
            match r {
                Some(k) => from <= k < self.stanzas@.len() && self.stanzas@[k as int] is Test
                    && forall|j: int| from <= j < k ==> !(#[trigger] self.stanzas@[j] is Test),
                None => forall|j: int|
                    from <= j < self.stanzas@.len() ==> !(#[trigger] self.stanzas@[j] is Test),
            },
    {
        let mut k = from;
        while k < self.stanzas.len()
            invariant
                from <= k,
                forall|j: int| from <= j < k ==> !(#[trigger] self.stanzas@[j] is Test),
            decreases self.stanzas.len() - k,
        {
            if let Stanza::Test(_) = &self.stanzas[k] {
                return Some(k);
            }
            k += 1;
        }
        None
    }

    /// Records the outcome of the case at stanza `k` in a normal pass. Returns whether the
    /// case failed, that is whether the pass stops here; a failure is recorded as the file's.
    pub fn record_outcome(&mut self, k: usize, out: Result<String, String>) -> (stop: bool)
        requires
            k < old(self).stanzas@.len(),
            old(self).stanzas@[k as int] is Test,
        ensures
            final(self).stanzas == old(self).stanzas,
            final(self).filename == old(self).filename,
            stop == !passes(old(self).stanzas@[k as int]->Test_0@, outcome_view(out)),
            failure_view(final(self).failure) == if stop {
                Some(
                    failure_message(
                        old(self).filename@,
                        old(self).stanzas@[k as int]->Test_0@,
                        outcome_view(out),
                    ),
                )
            } else {
                failure_view(old(self).failure)
            },
    {
        let verdict = match &self.stanzas[k] {
            Stanza::Test(case) => check_outcome(&self.filename, case, &out),
            Stanza::Comment(_) => None,
        };
        match verdict {
            Some(m) => {
                self.failure = Some(m);
                true
            },
            None => false,
        }
    }

    /// Runs each case in order through `f` and compares its output with the recorded one. At
    /// the first case that fails (its output differs, or `f` reports an error) the failure
    /// is recorded and no further case is run. Each outcome is one that `f` may give.
    pub fn run_normal<F>(&mut self, mut f: F)
        where F: FnMut(&mut TestCase) -> Result<String, String>,
        requires
            forall|c: &mut TestCase| f.requires((c,)),
        ensures
            final(self).filename == old(self).filename,
            exists|outs: Seq<Option<OutcomeView>>|
                normal_pass(
                    stanzas_view(old(self).stanzas@),
                    stanzas_view(final(self).stanzas@),
                    old(self).filename@,
                    outs,
                    failure_view(old(self).failure),
                    failure_view(final(self).failure),
                ) && (forall|i: int|
                    0 <= i < outs.len() && #[trigger] outs[i] is Some ==> {
                        &&& old(self).stanzas@[i] is Test
                        &&& final(self).stanzas@[i] is Test
                        &&& exists|m: &mut TestCase, o: Result<String, String>|
                            *m == old(self).stanzas@[i]->Test_0 && *final(m) == final(self).stanzas@[i]->Test_0
                                && f.ensures((m,), o) && outcome_view(o) == outs[i]->Some_0
                    }),
    {
        let ghost f0 = f;
        let ghost before = stanzas_view(self.stanzas@);
        let ghost mut outs: Seq<Option<OutcomeView>> = seq![];
        let n = self.stanzas.len();
        let mut i: usize = 0;
        while i < n
            invariant_except_break
                forall|c: &mut TestCase| f.requires((c,)),
                self.filename == old(self).filename,
                n == self.stanzas@.len(),
                before == stanzas_view(old(self).stanzas@),
                i <= n,
                outs.len() == i,
                before.len() == n,
                normal_prefix(
                    before,
                    stanzas_view(self.stanzas@),
                    self.filename@,
                    outs,
                    failure_view(old(self).failure),
                    failure_view(self.failure),
                ),
                !failed_at(stanzas_view(self.stanzas@), outs, i - 1),
                f == f0,
                forall|k: int|
                    0 <= k < outs.len() && #[trigger] outs[k] is Some ==> {
                        &&& old(self).stanzas@[k] is Test
                        &&& self.stanzas@[k] is Test
                        &&& exists|m: &mut TestCase, o: Result<String, String>|
                            *m == old(self).stanzas@[k]->Test_0 && *final(m) == self.stanzas@[k]->Test_0
                                && f0.ensures((m,), o) && outcome_view(o) == outs[k]->Some_0
                    },
                forall|k: int| i <= k < n ==> #[trigger] self.stanzas@[k] == old(self).stanzas@[k],
            ensures
                self.filename == old(self).filename,
                normal_pass(
                    before,
                    stanzas_view(self.stanzas@),
                    self.filename@,
                    outs,
                    failure_view(old(self).failure),
                    failure_view(self.failure),
                ),
                forall|k: int|
                    0 <= k < outs.len() && #[trigger] outs[k] is Some ==> {
                        &&& old(self).stanzas@[k] is Test
                        &&& self.stanzas@[k] is Test
                        &&& exists|m: &mut TestCase, o: Result<String, String>|
                            *m == old(self).stanzas@[k]->Test_0 && *final(m) == self.stanzas@[k]->Test_0
                                && f0.ensures((m,), o) && outcome_view(o) == outs[k]->Some_0
                    },
            decreases n - i,
        {
            let ghost now = stanzas_view(self.stanzas@);
            let mut slot = Stanza::Comment(String::new());
            self.stanzas.set_and_swap(i, &mut slot);
            match slot {
                Stanza::Comment(c) => {
                    self.stanzas.set(i, Stanza::Comment(c));
                    proof {
                        let after = stanzas_view(self.stanzas@);
                        assert(after =~= now);
                        assert(!failed_at(after, outs.push(None), i as int));
                        lemma_normal_step(
                            before,
                            now,
                            after,
                            self.filename@,
                            outs,
                            None,
                            failure_view(old(self).failure),
                            failure_view(self.failure),
                            failure_view(self.failure),
                        );
                        let o2 = outs.push(None);
                        assert forall|k: int| 0 <= k < o2.len() && #[trigger] o2[k] is Some implies {
                            &&& old(self).stanzas@[k] is Test
                            &&& self.stanzas@[k] is Test
                            &&& exists|m: &mut TestCase, o: Result<String, String>|
                                *m == old(self).stanzas@[k]->Test_0 && *final(m)
                                    == self.stanzas@[k]->Test_0 && f0.ensures((m,), o)
                                    && outcome_view(o) == o2[k]->Some_0
                        } by {
                            assert(o2[k] == outs[k]);
                        }
                        outs = o2;
                    }
                    i += 1;
                },
                Stanza::Test(mut case) => {
                    let ghost before_case = case;
                    let out = f(&mut case);
                    assert(exists|m: &mut TestCase, o: Result<String, String>|
                        *m == before_case && *final(m) == case && f0.ensures((m,), o) && o == out);
                    let ghost cv = case@;
                    let ghost ov = outcome_view(out);
                    let ghost fa_now = failure_view(self.failure);
                    let verdict = check_outcome(&self.filename, &case, &out);
                    let failed = verdict.is_some();
                    if failed {
                        self.failure = verdict;
                    }
                    self.stanzas.set(i, Stanza::Test(case));
                    proof {
                        let after = stanzas_view(self.stanzas@);
                        assert(after =~= now.update(i as int, StanzaView::Test(cv)));
                        assert(failed_at(after, outs.push(Some(ov)), i as int) == failed);
                        lemma_normal_step(
                            before,
                            now,
                            after,
                            self.filename@,
                            outs,
                            Some(ov),
                            failure_view(old(self).failure),
                            fa_now,
                            failure_view(self.failure),
                        );
                        let o2 = outs.push(Some(ov));
                        assert forall|k: int| 0 <= k < o2.len() && #[trigger] o2[k] is Some implies {
                            &&& old(self).stanzas@[k] is Test
                            &&& self.stanzas@[k] is Test
                            &&& exists|m: &mut TestCase, o: Result<String, String>|
                                *m == old(self).stanzas@[k]->Test_0 && *final(m)
                                    == self.stanzas@[k]->Test_0 && f0.ensures((m,), o)
                                    && outcome_view(o) == o2[k]->Some_0
                        } by {
                            if k < i {
                                assert(o2[k] == outs[k]);
                            }
                        }
                        outs = o2;
                    }
                    i += 1;
                    if failed {
                        break;
                    }
                },
            }
        }
    }

    /// Runs each case in order through `f` and writes the file anew: each case's directive
    /// line and input as they stood, followed by the output `f` gave for it. Stops with the
    /// error's message at the first case for which `f` reports an error.
    #[verifier::loop_isolation(false)]
    pub fn run_rewrite<F>(&mut self, mut f: F) -> (r: Result<String, String>)
        where F: FnMut(&mut TestCase) -> Result<String, String>,
        requires
            forall|c: &mut TestCase| f.requires((c,)),
        ensures
            final(self).filename == old(self).filename,
            final(self).failure == old(self).failure,
            r matches Ok(text) ==> exists|outs: Seq<Option<Seq<char>>>| {
                &&& outs.len() == old(self).stanzas@.len()
                &&& somes(outs).len() == test_count(stanzas_view(old(self).stanzas@))
                &&& text@ == render(stanzas_view(old(self).stanzas@), somes(outs))
                &&& forall|i: int|
                    0 <= i < outs.len() ==> (#[trigger] outs[i] is Some <==> old(self).stanzas@[i] is Test)
                &&& forall|i: int|
                    0 <= i < outs.len() && #[trigger] outs[i] is Some ==> exists|
                        m: &mut TestCase,
                        o: Result<String, String>,
                    |
                        *m == old(self).stanzas@[i]->Test_0
                            && *final(m) == final(self).stanzas@[i]->Test_0
                            && f.ensures((m,), o) && outcome_view(o) == Ok::<
                            Seq<char>,
                            Seq<char>,
                        >(outs[i]->Some_0)
            },
            r matches Err(msg) ==> exists|i: int, outs: Seq<Option<Seq<char>>>|
                #![trigger old(self).stanzas@[i], outs.len()]
                {
                    &&& 0 <= i < old(self).stanzas@.len()
                    &&& outs.len() == i
                    &&& old(self).stanzas@[i] is Test
                    &&& forall|k: int|
                        0 <= k < i ==> (#[trigger] outs[k] is Some <==> old(self).stanzas@[k] is Test)
                    &&& forall|k: int|
                        0 <= k < i && #[trigger] outs[k] is Some ==> exists|
                            m: &mut TestCase,
                            o: Result<String, String>,
                        |
                            *m == old(self).stanzas@[k]->Test_0
                                && *final(m) == final(self).stanzas@[k]->Test_0
                                && f.ensures((m,), o) && outcome_view(o) == Ok::<
                                Seq<char>,
                                Seq<char>,
                            >(outs[k]->Some_0)
                    &&& exists|m: &mut TestCase|
                        *m == old(self).stanzas@[i]->Test_0
                            && *final(m) == final(self).stanzas@[i]->Test_0
                            && f.ensures((m,), Err::<String, String>(msg))
                },
    {
        let ghost f0 = f;
        let ghost before = stanzas_view(self.stanzas@);
        let ghost mut outs: Seq<Option<Seq<char>>> = seq![];
        let mut w = String::new();
        let n = self.stanzas.len();
        let mut i: usize = 0;
        while i < n
            invariant
                forall|c: &mut TestCase| f.requires((c,)),
                f == f0,
                self.filename == old(self).filename,
                self.failure == old(self).failure,
                n == self.stanzas@.len(),
                before == stanzas_view(old(self).stanzas@),
                before.len() == n,
                i <= n,
                outs.len() == i,
                forall|k: int| i <= k < n ==> #[trigger] self.stanzas@[k] == old(self).stanzas@[k],
                somes(outs).len() == test_count(before.take(i as int)),
                w@ == render(before.take(i as int), somes(outs)),
                forall|k: int|
                    0 <= k < i ==> (#[trigger] outs[k] is Some <==> old(self).stanzas@[k] is Test),
                forall|k: int|
                    0 <= k < i && #[trigger] outs[k] is Some ==> exists|
                        m: &mut TestCase,
                        o: Result<String, String>,
                    |
                        *m == old(self).stanzas@[k]->Test_0 && *final(m) == self.stanzas@[k]->Test_0
                            && f0.ensures((m,), o) && outcome_view(o) == Ok::<
                            Seq<char>,
                            Seq<char>,
                        >(outs[k]->Some_0),
            decreases n - i,
        {
            proof {
                reveal_strlit("\n");
                assert(before.take(i + 1).drop_last() =~= before.take(i as int));
                assert(before[i as int] == stanzas_view(self.stanzas@)[i as int]);
            }
            let ghost now = self.stanzas@;
            let mut slot = Stanza::Comment(String::new());
            self.stanzas.set_and_swap(i, &mut slot);
            match slot {
                Stanza::Comment(c) => {
                    w.append(c.as_str());
                    w.append("\n");
                    assert(before.take(i + 1).last() == StanzaView::Comment(c@));
                    self.stanzas.set(i, Stanza::Comment(c));
                    proof {
                        let o2 = outs.push(None);
                        assert(o2.drop_last() =~= outs);
                        assert(w@ =~= render(before.take(i + 1), somes(o2)));
                        assert forall|k: int| 0 <= k < i + 1 && #[trigger] o2[k] is Some implies exists|
                            m: &mut TestCase,
                            o: Result<String, String>,
                        |
                            *m == old(self).stanzas@[k]->Test_0 && *final(m)
                                == self.stanzas@[k]->Test_0 && f0.ensures((m,), o)
                                && outcome_view(o) == Ok::<Seq<char>, Seq<char>>(o2[k]->Some_0) by {
                            assert(o2[k] == outs[k]);
                            assert(self.stanzas@[k] == now[k]);
                        }
                        assert forall|k: int| 0 <= k < i + 1 implies (#[trigger] o2[k] is Some
                            <==> old(self).stanzas@[k] is Test) by {
                            if k < i {
                                assert(o2[k] == outs[k]);
                            }
                        }
                        outs = o2;
                    }
                },
                Stanza::Test(mut case) => {
                    assert(before.take(i + 1).last() == StanzaView::Test(case@));
                    w.append(case.directive_line.as_str());
                    w.append("\n");
                    w.append(case.input.as_str());
                    let ghost before_case = case;
                    let out = f(&mut case);
                    assert(exists|m: &mut TestCase, o: Result<String, String>|
                        *m == before_case && *final(m) == case && f0.ensures((m,), o) && o == out);
                    let ghost after_case = case;
                    let ghost out_g = out;
                    self.stanzas.set(i, Stanza::Test(case));
                    match out {
                        Ok(result) => {
                            write_result(&mut w, result.as_str());
                            proof {
                                let o2 = outs.push(Some(result@));
                                assert(o2.drop_last() =~= outs);
                                assert(somes(o2) == somes(outs).push(result@));
                                assert(somes(o2).drop_last() =~= somes(outs));
                                assert(w@ =~= render(before.take(i + 1), somes(o2)));
                                assert forall|k: int| 0 <= k < i + 1 && #[trigger] o2[k] is Some implies exists|
                                    m: &mut TestCase,
                                    o: Result<String, String>,
                                |
                                    *m == old(self).stanzas@[k]->Test_0 && *final(m)
                                        == self.stanzas@[k]->Test_0 && f0.ensures((m,), o)
                                        && outcome_view(o) == Ok::<Seq<char>, Seq<char>>(
                                        o2[k]->Some_0,
                                    ) by {
                                    if k < i {
                                        assert(o2[k] == outs[k]);
                                        assert(self.stanzas@[k] == now[k]);
                                    }
                                }
                                assert forall|k: int| 0 <= k < i + 1 implies (#[trigger] o2[k]
                                    is Some <==> old(self).stanzas@[k] is Test) by {
                                    if k < i {
                                        assert(o2[k] == outs[k]);
                                    }
                                }
                                outs = o2;
                            }
                        },
                        Err(msg) => {
                            proof {
                                assert(old(self).stanzas@[i as int] == now[i as int]);
                                assert(self.stanzas@[i as int] == Stanza::Test(after_case));
                                assert(out_g == Err::<String, String>(msg));
                                assert(exists|m: &mut TestCase|
                                    *m == before_case && *final(m) == after_case && f.ensures(
                                        (m,),
                                        Err::<String, String>(msg),
                                    ));
                                assert(old(self).stanzas@[i as int]->Test_0 == before_case);
                                assert(self.stanzas@[i as int]->Test_0 == after_case);
                                assert forall|k: int| 0 <= k < i && #[trigger] outs[k] is Some implies exists|
                                    m: &mut TestCase,
                                    o: Result<String, String>,
                                |
                                    *m == old(self).stanzas@[k]->Test_0 && *final(m)
                                        == self.stanzas@[k]->Test_0 && f.ensures((m,), o)
                                        && outcome_view(o) == Ok::<Seq<char>, Seq<char>>(
                                        outs[k]->Some_0,
                                    ) by {
                                    assert(self.stanzas@[k] == now[k]);
                                }
                                assert(outs.len() == i);
                                assert(old(self).stanzas@[i as int] is Test);
                            }
                            return Err(msg);
                        },
                    }
                },
            }
            proof {
                assert forall|k: int| i + 1 <= k < n implies #[trigger] self.stanzas@[k] == old(
                    self).stanzas@[k] by {
                    assert(self.stanzas@[k] == now[k]);
                }
            }
            i += 1;
        }
        assert(before.take(n as int) =~= before);
        Ok(w)
    }
}

} // verus!
