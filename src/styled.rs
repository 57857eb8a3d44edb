use vstd::prelude::*;
use crate::align::{zip_longest, EitherOrBoth};
use crate::runs::{runs, runs_view, find_runs, lemma_runs, run_ok, prev_end};
use crate::text::{lines, lines_view, split_lines, push_char};

verus! {

/// The block that a piece of an overlaid line was taken from.
#[derive(Clone, Copy, Debug, PartialEq, Eq, Structural)]
pub enum Layer {
    Background,
    Foreground,
}

/// A piece of an overlaid line, with the block it was taken from.
pub struct Segment {
    pub layer: Layer,
    pub text: String,
}

impl View for Segment {
    type V = (Layer, Seq<char>);

    open spec fn view(&self) -> (Layer, Seq<char>) {
        (self.layer, self.text@)
    }
}

/// The view of one line of segments.
pub open spec fn line_view(v: Seq<Segment>) -> Seq<(Layer, Seq<char>)> {
    v.map_values(|s: Segment| s@)
}

/// The view of lines of segments.
pub open spec fn styled_view(v: Seq<Vec<Segment>>) -> Seq<Seq<(Layer, Seq<char>)>> {
    v.map_values(|l: Vec<Segment>| line_view(l@))
}

/// The background between two foreground runs, positions `from..to` of `b`:
/// nothing where that range is empty or does not lie within `b`.
pub open spec fn gap(b: Seq<char>, from: int, to: int) -> Seq<(Layer, Seq<char>)> {
    if from < to && to <= b.len() {
        seq![(Layer::Background, b.subrange(from, to))]
    } else {
        seq![]
    }
}

/// The segments of a line pair up to the end of the last of the runs `rs` of
/// `f`, and the position where that run ends.
pub open spec fn paint_runs(b: Seq<char>, f: Seq<char>, rs: Seq<(int, int)>) -> (
    Seq<(Layer, Seq<char>)>,
    int,
)
    decreases rs.len(),
{
    if rs.len() == 0 {
        (seq![], 0)
    } else {
        let (segs, at) = paint_runs(b, f, rs.drop_last());
        let (st, en) = rs.last();
        (segs + gap(b, at, st) + seq![(Layer::Foreground, f.subrange(st, en))], en)
    }
}

/// The segments of the line `f` drawn over the line `b`: each run of
/// non-whitespace characters of `f` comes from the foreground, what lies
/// between them and after the last from the background.
pub open spec fn styled_both(b: Seq<char>, f: Seq<char>) -> Seq<(Layer, Seq<char>)> {
    let (segs, at) = paint_runs(b, f, runs(f));
    segs + gap(b, at, b.len() as int)
}

/// The segments of the line at one aligned position of the two blocks.
pub open spec fn styled_line(p: EitherOrBoth<Seq<char>, Seq<char>>) -> Seq<(Layer, Seq<char>)> {
    match p {
        EitherOrBoth::Both(b, f) => styled_both(b, f),
        EitherOrBoth::Left(b) => seq![(Layer::Background, b)],
        EitherOrBoth::Right(f) => seq![(Layer::Foreground, f)],
    }
}

/// The segments of each line of `foreground` drawn over `background`.
pub open spec fn styled_lines(background: Seq<char>, foreground: Seq<char>) -> Seq<
    Seq<(Layer, Seq<char>)>,
> {
    zip_longest(lines(background), lines(foreground)).map_values(
        |p: EitherOrBoth<Seq<char>, Seq<char>>| styled_line(p),
    )
}

/// The characters `from..to` of `v`.
fn slice_string(v: &Vec<char>, from: usize, to: usize) -> (r: String)
    requires
        from <= to <= v.len(),
    ensures
        r@ == v@.subrange(from as int, to as int),
{
    let mut r = String::new();
    let mut i: usize = from;
    while i < to
        invariant
            from <= i <= to <= v.len(),
            r@ == v@.subrange(from as int, i as int),
        decreases to - i,
    {
        push_char(&mut r, v[i]);
        i = i + 1;
        assert(r@ =~= v@.subrange(from as int, i as int));
    }
    r
}

/// The segments of the line `f` drawn over the line `b`.
pub fn styled_both_exec(b: &Vec<char>, f: &Vec<char>) -> (r: Vec<Segment>)
    ensures
        line_view(r@) == styled_both(b@, f@),
{
    let rs = find_runs(f);
    proof {
        lemma_runs(f@);
    }
    let ghost rv = runs(f@);
    let mut r: Vec<Segment> = Vec::new();
    let mut at: usize = 0;
    let mut k: usize = 0;
    while k < rs.len()
        invariant
            rv == runs(f@),
            runs_view(rs@) == rv,
            forall|j: int| 0 <= j < rv.len() ==> run_ok(f@, rv, j),
            k <= rs.len(),
            at as int == prev_end(rv, k as int),
            (line_view(r@), at as int) == paint_runs(b@, f@, rv.take(k as int)),
        decreases rs.len() - k,
    {
        let (st, en) = rs[k];
        assert(rv[k as int] == (st as int, en as int));
        assert(run_ok(f@, rv, k as int));
        assert(rv.take(k + 1).drop_last() =~= rv.take(k as int));
        if at < st && st <= b.len() {
            r.push(Segment { layer: Layer::Background, text: slice_string(b, at, st) });
        }
        r.push(Segment { layer: Layer::Foreground, text: slice_string(f, st, en) });
        at = en;
        k = k + 1;
        assert(line_view(r@) =~= paint_runs(b@, f@, rv.take(k as int)).0);
    }
    assert(rv.take(k as int) =~= rv);
    if at < b.len() {
        r.push(Segment { layer: Layer::Background, text: slice_string(b, at, b.len()) });
    }
    assert(line_view(r@) =~= styled_both(b@, f@));
    r
}

/// The whole of `v` as a string.
fn to_string(v: &Vec<char>) -> (r: String)
    ensures
        r@ == v@,
{
    let r = slice_string(v, 0, v.len());
    assert(v@.subrange(0, v@.len() as int) =~= v@);
    r
}

/// Overlays `foreground` on `background` line by line and tells, for each
/// piece of each resulting line, which block it was taken from. Within a pair
/// of lines, each run of non-whitespace characters of the foreground line is
/// taken from the foreground, and the background shows between them; a line
/// that only one block has is taken whole from that block.
pub fn overlay_segments(background: &str, foreground: &str) -> (r: Vec<Vec<Segment>>)
    ensures
        styled_view(r@) == styled_lines(background@, foreground@),
{
    let bl = split_lines(background);
    let fl = split_lines(foreground);
    let ghost bs = lines_view(bl@);
    let ghost fs = lines_view(fl@);
    let ghost want = styled_lines(background@, foreground@);
    let n: usize = if bl.len() >= fl.len() { bl.len() } else { fl.len() };
    let mut r: Vec<Vec<Segment>> = Vec::new();
    let mut i: usize = 0;
    while i < n
        invariant
            bs == lines(background@),
            fs == lines(foreground@),
            bs == lines_view(bl@),
            fs == lines_view(fl@),
            want == styled_lines(background@, foreground@),
            n as int == want.len(),
            i <= n,
            r.len() == i,
            styled_view(r@) == want.take(i as int),
        decreases n - i,
    {
        let line = if i < bl.len() && i < fl.len() {
            assert(bs[i as int] == bl@[i as int]@ && fs[i as int] == fl@[i as int]@);
            styled_both_exec(&bl[i], &fl[i])
        } else if i < bl.len() {
            let mut v: Vec<Segment> = Vec::new();
            v.push(Segment { layer: Layer::Background, text: to_string(&bl[i]) });
            assert(line_view(v@) =~= want[i as int]);
            v
        } else {
            let mut v: Vec<Segment> = Vec::new();
            v.push(Segment { layer: Layer::Foreground, text: to_string(&fl[i]) });
            assert(line_view(v@) =~= want[i as int]);
            v
        };
        assert(line_view(line@) == want[i as int]);
        let ghost before = r@;
        r.push(line);
        assert(r@ == before.push(line));
        assert forall|j: int| 0 <= j < i implies styled_view(r@)[j] == want[j] by {
            assert(r@[j] == before[j]);
            assert(styled_view(before)[j] == want.take(i as int)[j]);
        }
        assert(styled_view(r@)[i as int] == want[i as int]);
        i = i + 1;
        assert(styled_view(r@) =~= want.take(i as int));
    }
    assert(want.take(n as int) =~= want);
    r
}

} // verus!
