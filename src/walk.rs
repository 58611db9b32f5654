//! Walking a set of test files: which names are skipped, and the run over the rest.
use vstd::prelude::*;
use crate::error::{DataDrivenError, ErrorView, in_file};
use crate::file::{TestFile, parse_spec, stanzas_view};

verus! {

/// Names of hidden and backup files: `.XXX`, `XXX~` and `#XXX#`.
pub open spec fn ignored_name(name: Seq<char>) -> bool {
    name.len() > 0 && (name[0] == '.' || name.last() == '~' || (name[0] == '#' && name.last()
        == '#'))
}

/// Whether a file of this name is skipped: `.XXX`, `XXX~` and `#XXX#` are.
pub fn should_ignore_file(name: &str) -> (r: bool)
    ensures
        r == ignored_name(name@),
{
    let cs = crate::text::chars_of(name);
    let n = cs.len();
    n > 0 && (cs[0] == '.' || cs[n - 1] == '~' || (cs[0] == '#' && cs[n - 1] == '#'))
}

/// The failures, each followed by a line ending.
pub open spec fn report(failures: Seq<Seq<char>>) -> Seq<char>
    decreases failures.len(),
{
    if failures.len() == 0 {
        seq![]
    } else {
        report(failures.drop_last()) + failures.last() + seq!['\n']
    }
}

/// The failures of a walk as one message.
pub fn failure_report(failures: &Vec<String>) -> (r: String)
    ensures
        r@ == report(failures@.map_values(|s: String| s@)),
{
    let ghost fs = failures@.map_values(|s: String| s@);
    let mut msg = String::new();
    let mut i: usize = 0;
    while i < failures.len()
        invariant
            fs == failures@.map_values(|s: String| s@),
            i <= failures@.len(),
            msg@ == report(fs.take(i as int)),
        decreases failures.len() - i,
    {
        proof {
            reveal_strlit("\n");
            assert(fs.take(i + 1).drop_last() =~= fs.take(i as int));
        }
        msg.append(failures[i].as_str());
        msg.append("\n");
        assert(msg@ =~= report(fs.take(i + 1)));
        i += 1;
    }
    assert(fs.take(i as int) =~= fs);
    msg
}

/// What a walk came to: how many files the matcher excluded, the failures of the files that
/// were run, and the errors of the files that did not parse.
pub struct WalkReport {
    pub excluded: usize,
    pub failures: Vec<String>,
    pub errors: Vec<DataDrivenError>,
}

/// Each file as its name and its text.
pub type FilesView = Seq<(Seq<char>, Seq<char>)>;

/// `t` is the file called `name` with text `text`, freshly parsed.
pub open spec fn parsed_from(t: TestFile, name: Seq<char>, text: Seq<char>) -> bool {
    &&& parse_spec(text) is Ok
    &&& stanzas_view(t.stanzas@) == parse_spec(text)->Ok_0
    &&& t.filename@ == name
    &&& t.failure is None
}

/// The failures a walk gathers: those that the files it ran (`afts`, as `f` left them) hold,
/// in file order.
pub open spec fn walk_failures(fv: FilesView, afts: Seq<TestFile>, excl: Seq<bool>) -> Seq<Seq<char>>
    decreases fv.len(),
{
    if fv.len() == 0 {
        seq![]
    } else {
        let k = fv.len() - 1;
        let rest = walk_failures(fv.drop_last(), afts, excl);
        if parse_spec(fv[k].1) is Ok && !excl[k] && afts[k].failure is Some {
            rest.push(afts[k].failure->Some_0@)
        } else {
            rest
        }
    }
}

/// The errors of the files that do not parse, each placed in its file, in file order.
pub open spec fn walk_errors(fv: FilesView) -> Seq<ErrorView>
    decreases fv.len(),
{
    if fv.len() == 0 {
        seq![]
    } else {
        let k = fv.len() - 1;
        let rest = walk_errors(fv.drop_last());
        if parse_spec(fv[k].1) is Err {
            rest.push(in_file(parse_spec(fv[k].1)->Err_0, fv[k].0))
        } else {
            rest
        }
    }
}

/// How many of the files that parse the matcher excluded.
pub open spec fn walk_excluded(fv: FilesView, excl: Seq<bool>) -> nat
    decreases fv.len(),
{
    if fv.len() == 0 {
        0
    } else {
        let k = fv.len() - 1;
        walk_excluded(fv.drop_last(), excl) + if parse_spec(fv[k].1) is Ok && excl[k] {
            1nat
        } else {
            0nat
        }
    }
}

pub open spec fn errors_view(es: Seq<DataDrivenError>) -> Seq<ErrorView> {
    es.map_values(|e: DataDrivenError| e@)
}

pub open spec fn strings_view(ss: Seq<String>) -> Seq<Seq<char>> {
    ss.map_values(|s: String| s@)
}

/// Parses each file (name and text) in order. A file that does not parse has its error
/// recorded and is otherwise skipped; a file the matcher excludes is counted and skipped;
/// `f` runs once on each other file, and the failures it leaves are gathered in file order.
#[verifier::loop_isolation(false)]
#[verifier::rlimit(60)]
pub fn walk_exclusive<F, M>(files: &Vec<(String, String)>, mut f: F, exclusion_matcher: M) -> (r:
    WalkReport)
    where F: FnMut(&mut TestFile), M: Fn(&TestFile) -> bool,
    requires
        forall|t: &mut TestFile| f.requires((t,)),
        forall|t: &TestFile| exclusion_matcher.requires((t,)),
    ensures
        errors_view(r.errors@) == walk_errors(files.deep_view()),
        exists|tfs: Seq<TestFile>, afts: Seq<TestFile>, excl: Seq<bool>|
            #![trigger tfs.len(), afts.len(), excl.len()]
            {
                &&& tfs.len() == files@.len()
                &&& afts.len() == files@.len()
                &&& excl.len() == files@.len()
                &&& r.excluded == walk_excluded(files.deep_view(), excl)
                &&& strings_view(r.failures@) == walk_failures(files.deep_view(), afts, excl)
                &&& forall|k: int|
                    0 <= k < files@.len() && parse_spec(files.deep_view()[k].1) is Ok ==> {
                        &&& parsed_from(#[trigger] tfs[k], files.deep_view()[k].0, files.deep_view()[k].1)
                        &&& exclusion_matcher.ensures((&tfs[k],), excl[k])
                        &&& excl[k] ==> afts[k] == tfs[k]
                        &&& !excl[k] ==> exists|m: &mut TestFile|
                            *m == tfs[k] && *final(m) == afts[k] && f.ensures((m,), ())
                    }
            },
{
    let ghost fv = files.deep_view();
    let ghost f0 = f;
    let ghost mut tfs: Seq<TestFile> = seq![];
    let ghost mut afts: Seq<TestFile> = seq![];
    let ghost mut excl: Seq<bool> = seq![];
    let mut excluded: usize = 0;
    let mut failures: Vec<String> = Vec::new();
    let mut errors: Vec<DataDrivenError> = Vec::new();
    let mut i: usize = 0;
    while i < files.len()
        invariant
            forall|t: &mut TestFile| f.requires((t,)),
            f == f0,
            fv == files.deep_view(),
            i <= files@.len(),
            tfs.len() == i,
            afts.len() == i,
            excl.len() == i,
            excluded == walk_excluded(fv.take(i as int), excl),
            excluded <= i,
            strings_view(failures@) == walk_failures(fv.take(i as int), afts, excl),
            errors_view(errors@) == walk_errors(fv.take(i as int)),
            forall|k: int|
                0 <= k < i && parse_spec(fv[k].1) is Ok ==> {
                    &&& parsed_from(#[trigger] tfs[k], fv[k].0, fv[k].1)
                    &&& exclusion_matcher.ensures((&tfs[k],), excl[k])
                    &&& excl[k] ==> afts[k] == tfs[k]
                    &&& !excl[k] ==> exists|m: &mut TestFile|
                        *m == tfs[k] && *final(m) == afts[k] && f.ensures((m,), ())
                },
        decreases files.len() - i,
    {
        let (name, text) = &files[i];
        proof {
            assert(fv[i as int] == (name@, text@));
            assert(fv.take(i + 1).drop_last() =~= fv.take(i as int));
            assert(fv.take(i + 1)[i as int] == fv[i as int]);
        }
        match TestFile::new(name.clone(), text.as_str()) {
            Err(e) => {
                let ghost ev = e@;
                errors.push(e);
                proof {
                    let t: TestFile = arbitrary();
                    let (a0, e0, t_old) = (afts, excl, tfs);
                    tfs = tfs.push(t);
                    afts = afts.push(t);
                    excl = excl.push(false);
                    assert(errors_view(errors@) =~= walk_errors(fv.take(i as int)).push(ev));
                    lemma_walk_failures_frame(fv.take(i as int), a0, e0, afts, excl);
                    lemma_walk_excluded_frame(fv.take(i as int), e0, excl);
                    assert forall|k: int| 0 <= k < i && parse_spec(fv[k].1) is Ok implies {
                        &&& parsed_from(#[trigger] tfs[k], fv[k].0, fv[k].1)
                        &&& exclusion_matcher.ensures((&tfs[k],), excl[k])
                        &&& excl[k] ==> afts[k] == tfs[k]
                        &&& !excl[k] ==> exists|m: &mut TestFile|
                            *m == tfs[k] && *final(m) == afts[k] && f.ensures((m,), ())
                    } by {
                        assert(tfs[k] == t_old[k]);
                        assert(afts[k] == a0[k]);
                        assert(excl[k] == e0[k]);
                        assert(parsed_from(t_old[k], fv[k].0, fv[k].1));
                    }
                }
            },
            Ok(tf) => {
                let mut tf = tf;
                let ghost t0 = tf;
                let skip = exclusion_matcher(&tf);
                if skip {
                    excluded += 1;
                } else {
                    f(&mut tf);
                    assert(exists|m: &mut TestFile| *m == t0 && *final(m) == tf && f.ensures((m,), ()));
                    let ghost before_push = strings_view(failures@);
                    if let Some(fail) = tf.failure.clone() {
                        failures.push(fail);
                        assert(strings_view(failures@) =~= before_push.push(tf.failure->Some_0@));
                    }
                }
                proof {
                    let (a0, e0, t_old) = (afts, excl, tfs);
                    tfs = tfs.push(t0);
                    afts = afts.push(tf);
                    excl = excl.push(skip);
                    lemma_walk_failures_frame(fv.take(i as int), a0, e0, afts, excl);
                    lemma_walk_excluded_frame(fv.take(i as int), e0, excl);
                    assert(parsed_from(tfs[i as int], fv[i as int].0, fv[i as int].1));
                    assert(exclusion_matcher.ensures((&tfs[i as int],), excl[i as int]));
                    if !skip {
                        assert(exists|m: &mut TestFile|
                            *m == tfs[i as int] && *final(m) == afts[i as int] && f.ensures(
                                (m,),
                                (),
                            ));
                    }
                    assert forall|k: int| 0 <= k < i && parse_spec(fv[k].1) is Ok implies {
                        &&& parsed_from(#[trigger] tfs[k], fv[k].0, fv[k].1)
                        &&& exclusion_matcher.ensures((&tfs[k],), excl[k])
                        &&& excl[k] ==> afts[k] == tfs[k]
                        &&& !excl[k] ==> exists|m: &mut TestFile|
                            *m == tfs[k] && *final(m) == afts[k] && f.ensures((m,), ())
                    } by {
                        assert(tfs[k] == t_old[k]);
                        assert(afts[k] == a0[k]);
                        assert(excl[k] == e0[k]);
                        assert(parsed_from(t_old[k], fv[k].0, fv[k].1));
                    }
                }
            },
        }
        i += 1;
    }
    proof {
        assert(fv.take(i as int) =~= fv);
    }
    WalkReport { excluded, failures, errors }
}

/// The gathered failures depend only on the entries for the files given.
proof fn lemma_walk_failures_frame(
    fv: FilesView,
    a1: Seq<TestFile>,
    e1: Seq<bool>,
    a2: Seq<TestFile>,
    e2: Seq<bool>,
)
    requires
        a1.len() >= fv.len(),
        e1.len() >= fv.len(),
        a2.len() >= fv.len(),
        e2.len() >= fv.len(),
        forall|k: int| 0 <= k < fv.len() ==> a1[k] == a2[k] && e1[k] == e2[k],
    ensures
        walk_failures(fv, a1, e1) == walk_failures(fv, a2, e2),
    decreases fv.len(),
{
    if fv.len() > 0 {
        lemma_walk_failures_frame(fv.drop_last(), a1, e1, a2, e2);
        let k = fv.len() - 1;
        assert(a1[k] == a2[k] && e1[k] == e2[k]);
    }
}

/// The excluded count depends only on the entries for the files given.
proof fn lemma_walk_excluded_frame(fv: FilesView, e1: Seq<bool>, e2: Seq<bool>)
    requires
        e1.len() >= fv.len(),
        e2.len() >= fv.len(),
        forall|k: int| 0 <= k < fv.len() ==> e1[k] == e2[k],
    ensures
        walk_excluded(fv, e1) == walk_excluded(fv, e2),
    decreases fv.len(),
{
    if fv.len() > 0 {
        lemma_walk_excluded_frame(fv.drop_last(), e1, e2);
        let k = fv.len() - 1;
        assert(e1[k] == e2[k]);
    }
}

/// Parses each file (name and text) in order. A file that does not parse has its error
/// recorded and is otherwise skipped; `f` runs once on each other file, and the failures it
/// leaves are gathered in file order.
#[verifier::rlimit(60)]
pub fn walk<F>(files: &Vec<(String, String)>, f: F) -> (r: WalkReport)
    where F: FnMut(&mut TestFile),
    requires
        forall|t: &mut TestFile| f.requires((t,)),
    ensures
        r.excluded == 0,
        errors_view(r.errors@) == walk_errors(files.deep_view()),
        exists|tfs: Seq<TestFile>, afts: Seq<TestFile>|
            #![trigger tfs.len(), afts.len()]
            {
                &&& tfs.len() == files@.len()
                &&& afts.len() == files@.len()
                &&& strings_view(r.failures@) == walk_failures(
                    files.deep_view(),
                    afts,
                    Seq::new(files@.len(), |k: int| false),
                )
                &&& forall|k: int|
                    0 <= k < files@.len() && parse_spec(files.deep_view()[k].1) is Ok ==> {
                        &&& parsed_from(#[trigger] tfs[k], files.deep_view()[k].0, files.deep_view()[k].1)
                        &&& exists|m: &mut TestFile|
                            *m == tfs[k] && *final(m) == afts[k] && f.ensures((m,), ())
                    }
            },
{
    let keep_all = |t: &TestFile| -> (b: bool)
        ensures
            !b,
        { false };
    let r = walk_exclusive(files, f, keep_all);
    proof {
        let fv = files.deep_view();
        let (tfs, afts, excl) = choose|tfs: Seq<TestFile>, afts: Seq<TestFile>, excl: Seq<bool>|
            #![trigger tfs.len(), afts.len(), excl.len()]
            {
                &&& tfs.len() == files@.len()
                &&& afts.len() == files@.len()
                &&& excl.len() == files@.len()
                &&& r.excluded == walk_excluded(fv, excl)
                &&& strings_view(r.failures@) == walk_failures(fv, afts, excl)
                &&& forall|k: int|
                    0 <= k < files@.len() && parse_spec(fv[k].1) is Ok ==> {
                        &&& parsed_from(#[trigger] tfs[k], fv[k].0, fv[k].1)
                        &&& keep_all.ensures((&tfs[k],), excl[k])
                        &&& excl[k] ==> afts[k] == tfs[k]
                        &&& !excl[k] ==> exists|m: &mut TestFile|
                            *m == tfs[k] && *final(m) == afts[k] && f.ensures((m,), ())
                    }
            };
        let none = Seq::new(files@.len(), |k: int| false);
        assert forall|k: int| 0 <= k < fv.len() && parse_spec(fv[k].1) is Ok implies !excl[k] by {
            assert(parsed_from(tfs[k], fv[k].0, fv[k].1));
        }
        lemma_walk_with_none(fv, afts, excl);
        assert(walk_failures(fv, afts, excl) == walk_failures(fv, afts, none));
        assert(r.excluded == 0);
        assert forall|k: int|
            0 <= k < files@.len() && parse_spec(fv[k].1) is Ok implies {
                &&& parsed_from(#[trigger] tfs[k], fv[k].0, fv[k].1)
                &&& exists|m: &mut TestFile|
                    *m == tfs[k] && *final(m) == afts[k] && f.ensures((m,), ())
            } by {
            assert(parsed_from(tfs[k], fv[k].0, fv[k].1));
        }
    }
    r
}

/// With nothing excluded among the files that parse, the excluded count is 0 and the
/// failures are those with no exclusion at all.
proof fn lemma_walk_with_none(fv: FilesView, afts: Seq<TestFile>, excl: Seq<bool>)
    requires
        excl.len() >= fv.len(),
        afts.len() >= fv.len(),
        forall|k: int| 0 <= k < fv.len() && parse_spec(fv[k].1) is Ok ==> !excl[k],
    ensures
        walk_excluded(fv, excl) == 0,
        walk_failures(fv, afts, excl) == walk_failures(fv, afts, Seq::new(fv.len(), |k: int| false)),
    decreases fv.len(),
{
    if fv.len() > 0 {
        let p = fv.drop_last();
        assert forall|k: int| 0 <= k < p.len() && parse_spec(p[k].1) is Ok implies !excl[k] by {
            assert(p[k] == fv[k]);
        }
        lemma_walk_with_none(p, afts, excl);
        lemma_walk_failures_frame(
            p,
            afts,
            Seq::new(p.len(), |k: int| false),
            afts,
            Seq::new(fv.len(), |k: int| false),
        );
    }
}

} // verus!
