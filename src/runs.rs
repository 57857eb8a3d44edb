use vstd::prelude::*;
use crate::text::{white_space, is_whitespace};

verus! {

/// The state after reading `f` from the left: the runs of non-whitespace
/// characters already closed by a whitespace character, as `(start, end)`
/// ranges, and the start of the run still open at the end of `f`, if any.
pub open spec fn scan_runs(f: Seq<char>) -> (Seq<(int, int)>, Option<int>)
    decreases f.len(),
{
    if f.len() == 0 {
        (seq![], None)
    } else {
        let (done, open) = scan_runs(f.drop_last());
        let i = f.len() - 1;
        if white_space(f.last()) {
            match open {
                Some(st) => (done.push((st, i)), None),
                None => (done, None),
            }
        } else {
            match open {
                Some(st) => (done, Some(st)),
                None => (done, Some(i)),
            }
        }
    }
}

/// The maximal runs of non-whitespace characters of `f`, left to right, as
/// half-open `(start, end)` ranges of character positions.
pub open spec fn runs(f: Seq<char>) -> Seq<(int, int)> {
    let (done, open) = scan_runs(f);
    match open {
        Some(st) => done.push((st, f.len() as int)),
        None => done,
    }
}

/// The end of the run before run `k`, or 0 for the first.
pub open spec fn prev_end(rs: Seq<(int, int)>, k: int) -> int {
    if k == 0 {
        0
    } else {
        rs[k - 1].1
    }
}

/// Run `k` of `rs` is a nonempty range of non-whitespace characters of `f`,
/// after the previous run and separated from it by whitespace only.
pub open spec fn run_ok(f: Seq<char>, rs: Seq<(int, int)>, k: int) -> bool {
    &&& 0 <= prev_end(rs, k) <= rs[k].0 < rs[k].1 <= f.len()
    &&& forall|p: int| rs[k].0 <= p < rs[k].1 ==> !white_space(#[trigger] f[p])
    &&& forall|p: int| prev_end(rs, k) <= p < rs[k].0 ==> white_space(#[trigger] f[p])
}

/// `rs` covers the non-whitespace characters of `f` exactly, in order.
pub open spec fn runs_cover(f: Seq<char>, rs: Seq<(int, int)>) -> bool {
    &&& forall|k: int| 0 <= k < rs.len() ==> run_ok(f, rs, k)
    &&& forall|p: int| prev_end(rs, rs.len() as int) <= p < f.len() ==> white_space(#[trigger] f[p])
}

/// `run_ok` carries over from a prefix of `f` to `f`.
proof fn lemma_run_ok_extend(g: Seq<char>, f: Seq<char>, rs: Seq<(int, int)>, k: int)
    requires
        g.len() <= f.len(),
        forall|p: int| 0 <= p < g.len() ==> g[p] == f[p],
        0 <= k < rs.len(),
        run_ok(g, rs, k),
    ensures
        run_ok(f, rs, k),
{
    assert forall|p: int| rs[k].0 <= p < rs[k].1 implies !white_space(#[trigger] f[p]) by {
        assert(g[p] == f[p]);
    }
    assert forall|p: int| prev_end(rs, k) <= p < rs[k].0 implies white_space(#[trigger] f[p]) by {
        assert(g[p] == f[p]);
    }
}

/// The state of the scan: closed runs, then either trailing whitespace or an
/// open run that reaches the end.
pub open spec fn scan_ok(f: Seq<char>, done: Seq<(int, int)>, open: Option<int>) -> bool {
    let e = prev_end(done, done.len() as int);
    &&& 0 <= e
    &&& forall|k: int| 0 <= k < done.len() ==> run_ok(f, done, k)
    &&& forall|k: int| 0 <= k < done.len() ==> done[k].1 < f.len()
    &&& match open {
        None => forall|p: int| e <= p < f.len() ==> white_space(#[trigger] f[p]),
        Some(st) => {
            &&& e <= st < f.len()
            &&& forall|p: int| e <= p < st ==> white_space(#[trigger] f[p])
            &&& forall|p: int| st <= p < f.len() ==> !white_space(#[trigger] f[p])
        },
    }
}

proof fn lemma_scan_runs(f: Seq<char>)
    ensures
        scan_ok(f, scan_runs(f).0, scan_runs(f).1),
    decreases f.len(),
{
    if f.len() > 0 {
        let g = f.drop_last();
        let i = f.len() - 1;
        lemma_scan_runs(g);
        assert forall|p: int| 0 <= p < g.len() implies g[p] == f[p] by {}
        let (done, open) = scan_runs(g);
        let (done2, open2) = scan_runs(f);
        let e = prev_end(done, done.len() as int);
        assert(0 <= e);
        assert forall|k: int| 0 <= k < done.len() implies run_ok(f, done, k) by {
            lemma_run_ok_extend(g, f, done, k);
        }
        if white_space(f.last()) {
            match open {
                Some(st) => {
                    assert(done2 == done.push((st, i)));
                    assert forall|k: int| 0 <= k < done2.len() implies run_ok(f, done2, k) by {
                        if k < done.len() {
                            assert(done2[k] == done[k]);
                            if k > 0 {
                                assert(done2[k - 1] == done[k - 1]);
                            }
                            assert(prev_end(done2, k) == prev_end(done, k));
                            assert(run_ok(f, done, k));
                        } else {
                            assert(done2[k] == (st, i));
                            if k > 0 {
                                assert(done2[k - 1] == done[k - 1]);
                            }
                            assert(prev_end(done2, k) == e);
                            assert forall|p: int| st <= p < i implies !white_space(
                                #[trigger] f[p],
                            ) by {
                                assert(g[p] == f[p]);
                            }
                            assert forall|p: int| e <= p < st implies white_space(
                                #[trigger] f[p],
                            ) by {
                                assert(g[p] == f[p]);
                            }
                        }
                    }
                    assert(prev_end(done2, done2.len() as int) == i);
                },
                None => {
                    assert forall|p: int| e <= p < f.len() implies white_space(
                        #[trigger] f[p],
                    ) by {
                        if p < i {
                            assert(g[p] == f[p]);
                        }
                    }
                },
            }
        } else {
            match open {
                Some(st) => {
                    assert forall|p: int| e <= p < st implies white_space(#[trigger] f[p]) by {
                        assert(g[p] == f[p]);
                    }
                    assert forall|p: int| st <= p < f.len() implies !white_space(
                        #[trigger] f[p],
                    ) by {
                        if p < i {
                            assert(g[p] == f[p]);
                        }
                    }
                },
                None => {
                    assert forall|p: int| e <= p < i implies white_space(#[trigger] f[p]) by {
                        assert(g[p] == f[p]);
                    }
                },
            }
        }
    }
}

/// What `runs` returns covers the non-whitespace characters exactly.
pub proof fn lemma_runs(f: Seq<char>)
    ensures
        runs_cover(f, runs(f)),
{
    lemma_scan_runs(f);
    let (done, open) = scan_runs(f);
    let rs = runs(f);
    assert forall|k: int| 0 <= k < rs.len() implies run_ok(f, rs, k) by {
        if k < done.len() {
            assert(rs[k] == done[k]);
            assert(prev_end(rs, k) == prev_end(done, k));
            assert(run_ok(f, done, k));
        } else {
            assert(prev_end(rs, k) == prev_end(done, done.len() as int));
        }
    }
}

/// The view of runs held as machine integers.
pub open spec fn runs_view(v: Seq<(usize, usize)>) -> Seq<(int, int)> {
    v.map_values(|p: (usize, usize)| (p.0 as int, p.1 as int))
}

/// Finds the maximal runs of non-whitespace characters of `f`.
pub fn find_runs(f: &Vec<char>) -> (r: Vec<(usize, usize)>)
    ensures
        runs_view(r@) == runs(f@),
{
    let mut done: Vec<(usize, usize)> = Vec::new();
    let mut open: bool = false;
    let mut start: usize = 0;
    let mut i: usize = 0;
    while i < f.len()
        invariant
            i <= f.len(),
            scan_runs(f@.take(i as int)) == (
                runs_view(done@),
                if open { Some(start as int) } else { None },
            ),
        decreases f.len() - i,
    {
        assert(f@.take(i + 1).drop_last() =~= f@.take(i as int));
        if is_whitespace(f[i]) {
            if open {
                done.push((start, i));
                open = false;
                assert(runs_view(done@) =~= scan_runs(f@.take(i + 1)).0);
            }
        } else if !open {
            open = true;
            start = i;
        }
        i = i + 1;
    }
    assert(f@.take(f.len() as int) =~= f@);
    if open {
        done.push((start, f.len()));
        assert(runs_view(done@) =~= runs(f@));
    }
    done
}

} // verus!
