use vstd::prelude::*;
use crate::align::zip_longest;
use crate::plain::{merge_line, overlay, overlay_line, overlay_lines};
use crate::text::{lines, scan_lines, strip_cr, terminated, white_space};
use crate::runs::{runs, runs_cover, lemma_runs, run_ok, prev_end};
use crate::styled::{Layer, gap, paint_runs, styled_both, styled_lines};
use crate::paint::{
    joined, joined_lines, painted_as, painted_in, piece_ok, layer_colors, select_code,
    optional_code, color_code, named, named_code, decimal, digit, reset_code,
};

verus! {

/// Neither the finished lines nor the open line of a scan hold `'\n'`.
proof fn lemma_scan_lines_no_newline(s: Seq<char>)
    ensures
        forall|i: int|
            0 <= i < scan_lines(s).0.len() ==> !(#[trigger] scan_lines(s).0[i]).contains('\n'),
        !scan_lines(s).1.contains('\n'),
    decreases s.len(),
{
    if s.len() > 0 {
        lemma_scan_lines_no_newline(s.drop_last());
        let (done, cur) = scan_lines(s.drop_last());
        if s.last() == '\n' {
            let l = strip_cr(cur);
            assert forall|k: int| 0 <= k < l.len() implies l[k] != '\n' by {
                assert(l[k] == cur[k]);
            }
            let d2 = done.push(l);
            assert forall|i: int| 0 <= i < d2.len() implies !(#[trigger] d2[i]).contains('\n') by {
                if i < done.len() {
                    assert(d2[i] == done[i]);
                }
            }
        } else {
            let c2 = cur.push(s.last());
            assert forall|k: int| 0 <= k < c2.len() implies c2[k] != '\n' by {
                if k < cur.len() {
                    assert(c2[k] == cur[k]);
                }
            }
        }
    }
}

/// No line of a text holds `'\n'`.
pub proof fn lemma_lines_no_newline(s: Seq<char>)
    ensures
        forall|i: int| 0 <= i < lines(s).len() ==> !(#[trigger] lines(s)[i]).contains('\n'),
{
    lemma_scan_lines_no_newline(s);
    let (done, cur) = scan_lines(s);
    if cur.len() > 0 {
        let ls = done.push(cur);
        assert forall|i: int| 0 <= i < ls.len() implies !(#[trigger] ls[i]).contains('\n') by {
            if i < done.len() {
                assert(ls[i] == done[i]);
            }
        }
    }
}

/// The lines of an overlay: as many as the longer block has, none holding
/// `'\n'`, and the overlay is each of them followed by exactly one `'\n'`.
pub proof fn lemma_line_count(a: Seq<char>, b: Seq<char>)
    ensures
        ({
            let ls = overlay_lines(lines(a), lines(b));
            &&& ls.len() == if lines(a).len() >= lines(b).len() {
                lines(a).len()
            } else {
                lines(b).len()
            }
            &&& forall|i: int| 0 <= i < ls.len() ==> !(#[trigger] ls[i]).contains('\n')
            &&& overlay(a, b) == terminated(ls)
        }),
{
    let la = lines(a);
    let lb = lines(b);
    let ls = overlay_lines(la, lb);
    lemma_lines_no_newline(a);
    lemma_lines_no_newline(b);
    assert forall|i: int| 0 <= i < ls.len() implies !(#[trigger] ls[i]).contains('\n') by {
        let p = zip_longest(la, lb)[i];
        assert(ls[i] == merge_line(p));
        if i < la.len() && i < lb.len() {
            let l = overlay_line(la[i], lb[i]);
            assert(!la[i].contains('\n'));
            assert(!lb[i].contains('\n'));
            assert forall|k: int| 0 <= k < l.len() implies l[k] != '\n' by {
                if k < la[i].len() && k < lb[i].len() {
                    assert(la[i][k] != '\n' && lb[i][k] != '\n');
                } else if k < la[i].len() {
                    assert(la[i][k] != '\n');
                } else {
                    assert(lb[i][k] != '\n');
                }
            }
        } else if i < la.len() {
            assert(!la[i].contains('\n'));
        } else {
            assert(!lb[i].contains('\n'));
        }
    }
}

/// Over an empty foreground, the overlay is the background with `'\n'` after
/// each of its lines.
pub proof fn lemma_empty_foreground(a: Seq<char>)
    ensures
        overlay(a, seq![]) == terminated(lines(a)),
{
    let e: Seq<char> = seq![];
    assert(scan_lines(e) == (Seq::<Seq<char>>::empty(), e));
    assert(lines(e) =~= Seq::<Seq<char>>::empty());
    assert(overlay_lines(lines(a), lines(e)) =~= lines(a));
}

/// A line drawn over itself is that line.
pub proof fn lemma_line_over_itself(l: Seq<char>)
    ensures
        overlay_line(l, l) == l,
{
    assert(overlay_line(l, l) =~= l);
}

/// A text drawn over itself is that text with `'\n'` after each of its lines.
pub proof fn lemma_overlay_itself(a: Seq<char>)
    ensures
        overlay(a, a) == terminated(lines(a)),
{
    let la = lines(a);
    assert forall|i: int| 0 <= i < la.len() implies overlay_lines(la, la)[i] == la[i] by {
        lemma_line_over_itself(la[i]);
    }
    assert(overlay_lines(la, la) =~= la);
}

/// Where a foreground line is whitespace only, the background line shows
/// through it; where the foreground line is longer, its whitespace follows.
pub proof fn lemma_whitespace_transparent(b: Seq<char>, f: Seq<char>)
    requires
        forall|i: int| 0 <= i < f.len() ==> white_space(#[trigger] f[i]),
    ensures
        overlay_line(b, f) == if f.len() <= b.len() {
            b
        } else {
            b + f.subrange(b.len() as int, f.len() as int)
        },
{
    if f.len() <= b.len() {
        assert(overlay_line(b, f) =~= b);
    } else {
        assert(overlay_line(b, f) =~= b + f.subrange(b.len() as int, f.len() as int));
    }
}

/// A segment of the line pair `b`, `f` is where it says it comes from: a
/// background segment is a stretch of `b` under whitespace of `f` or beyond
/// its end, a foreground segment a stretch of `f` with no whitespace.
pub open spec fn sourced(b: Seq<char>, f: Seq<char>, seg: (Layer, Seq<char>)) -> bool {
    if seg.0 == Layer::Background {
        exists|x: int, y: int|
            0 <= x <= y <= b.len() && #[trigger] b.subrange(x, y) == seg.1 && forall|p: int|
                x <= p < y && p < f.len() ==> white_space(#[trigger] f[p])
    } else {
        exists|x: int, y: int|
            0 <= x <= y <= f.len() && #[trigger] f.subrange(x, y) == seg.1 && forall|p: int|
                x <= p < y ==> !white_space(#[trigger] f[p])
    }
}

proof fn lemma_gap_sourced(b: Seq<char>, f: Seq<char>, from: int, to: int)
    requires
        0 <= from,
        forall|p: int| from <= p < to && p < f.len() ==> white_space(#[trigger] f[p]),
    ensures
        forall|j: int| 0 <= j < gap(b, from, to).len() ==> sourced(b, f, #[trigger] gap(b, from, to)[j]),
{
    if from < to && to <= b.len() {
        let seg = gap(b, from, to)[0];
        assert(seg.1 == b.subrange(from, to));
        assert(sourced(b, f, seg));
    }
}

proof fn lemma_paint_runs_sourced(b: Seq<char>, f: Seq<char>, rs: Seq<(int, int)>, k: int)
    requires
        runs_cover(f, rs),
        0 <= k <= rs.len(),
    ensures
        paint_runs(b, f, rs.take(k)).1 == prev_end(rs, k),
        forall|j: int|
            0 <= j < paint_runs(b, f, rs.take(k)).0.len() ==> sourced(
                b,
                f,
                #[trigger] paint_runs(b, f, rs.take(k)).0[j],
            ),
    decreases k,
{
    if k > 0 {
        lemma_paint_runs_sourced(b, f, rs, k - 1);
        let t = rs.take(k);
        assert(t.drop_last() =~= rs.take(k - 1));
        let (segs, at) = paint_runs(b, f, rs.take(k - 1));
        let (st, en) = rs[k - 1];
        assert(run_ok(f, rs, k - 1));
        lemma_gap_sourced(b, f, at, st);
        let g = gap(b, at, st);
        let run = (Layer::Foreground, f.subrange(st, en));
        assert(sourced(b, f, run));
        let all = segs + g + seq![run];
        assert forall|j: int| 0 <= j < all.len() implies sourced(b, f, #[trigger] all[j]) by {
            if j < segs.len() {
                assert(all[j] == segs[j]);
            } else if j < segs.len() + g.len() {
                assert(all[j] == g[j - segs.len()]);
            } else {
                assert(all[j] == run);
            }
        }
    }
}

/// Every segment of a styled line pair is where it says it comes from.
pub proof fn lemma_provenance(b: Seq<char>, f: Seq<char>)
    ensures
        forall|j: int| 0 <= j < styled_both(b, f).len() ==> sourced(b, f, #[trigger] styled_both(b, f)[j]),
{
    let rs = runs(f);
    lemma_runs(f);
    lemma_paint_runs_sourced(b, f, rs, rs.len() as int);
    assert(rs.take(rs.len() as int) =~= rs);
    let (segs, at) = paint_runs(b, f, rs);
    if rs.len() > 0 {
        assert(run_ok(f, rs, rs.len() - 1));
    }
    lemma_gap_sourced(b, f, at, b.len() as int);
    let g = gap(b, at, b.len() as int);
    let all = segs + g;
    assert forall|j: int| 0 <= j < all.len() implies sourced(b, f, #[trigger] all[j]) by {
        if j < segs.len() {
            assert(all[j] == segs[j]);
        } else {
            assert(all[j] == g[j - segs.len()]);
        }
    }
}

/// The texts of the segments of one line.
pub open spec fn texts(l: Seq<(Layer, Seq<char>)>) -> Seq<Seq<char>> {
    l.map_values(|seg: (Layer, Seq<char>)| seg.1)
}

/// The text of styled lines with all colour left out, `'\n'` after each line.
pub open spec fn stripped(segs: Seq<Seq<(Layer, Seq<char>)>>) -> Seq<char> {
    terminated(segs.map_values(|l: Seq<(Layer, Seq<char>)>| joined(texts(l))))
}

/// Beyond the end of the background line `b`, the foreground line `f` holds
/// no whitespace.
pub open spec fn line_fits(b: Seq<char>, f: Seq<char>) -> bool {
    forall|p: int| b.len() <= p < f.len() ==> !white_space(#[trigger] f[p])
}

/// For every line that both blocks have, `line_fits` holds.
pub open spec fn blocks_fit(background: Seq<char>, foreground: Seq<char>) -> bool {
    forall|i: int|
        0 <= i < lines(background).len() && 0 <= i < lines(foreground).len() ==> line_fits(
            #[trigger] lines(background)[i],
            lines(foreground)[i],
        )
}

proof fn lemma_joined_concat(x: Seq<Seq<char>>, y: Seq<Seq<char>>)
    ensures
        joined(x + y) == joined(x) + joined(y),
    decreases y.len(),
{
    if y.len() == 0 {
        assert(x + y =~= x);
        assert(joined(x) + joined(y) =~= joined(x));
    } else {
        lemma_joined_concat(x, y.drop_last());
        assert((x + y).drop_last() =~= x + y.drop_last());
        assert(joined(x) + joined(y) =~= joined(x) + joined(y.drop_last()) + y.last());
    }
}

proof fn lemma_joined_one(t: Seq<char>)
    ensures
        joined(seq![t]) == t,
{
    assert(seq![t].drop_last() =~= Seq::<Seq<char>>::empty());
    assert(joined(Seq::<Seq<char>>::empty()) + t =~= t);
}

proof fn lemma_paint_runs_text(b: Seq<char>, f: Seq<char>, rs: Seq<(int, int)>, k: int)
    requires
        runs_cover(f, rs),
        line_fits(b, f),
        0 <= k <= rs.len(),
    ensures
        paint_runs(b, f, rs.take(k)).1 == prev_end(rs, k),
        0 <= prev_end(rs, k) <= f.len(),
        joined(texts(paint_runs(b, f, rs.take(k)).0)) == overlay_line(b, f).take(prev_end(rs, k)),
    decreases k,
{
    let ol = overlay_line(b, f);
    if k == 0 {
        assert(rs.take(0) =~= Seq::<(int, int)>::empty());
        assert(texts(seq![]) =~= Seq::<Seq<char>>::empty());
        assert(ol.take(0) =~= Seq::<char>::empty());
    } else {
        lemma_paint_runs_text(b, f, rs, k - 1);
        assert(rs.take(k).drop_last() =~= rs.take(k - 1));
        let (segs, at) = paint_runs(b, f, rs.take(k - 1));
        let (st, en) = rs[k - 1];
        assert(run_ok(f, rs, k - 1));
        let g = gap(b, at, st);
        let run_text = f.subrange(st, en);
        let all = segs + g + seq![(Layer::Foreground, run_text)];
        assert(texts(all) =~= texts(segs) + texts(g) + seq![run_text]);
        lemma_joined_concat(texts(segs) + texts(g), seq![run_text]);
        lemma_joined_concat(texts(segs), texts(g));
        lemma_joined_one(run_text);
        let gap_text = if at < st { b.subrange(at, st) } else { Seq::<char>::empty() };
        if at < st {
            assert(white_space(f[st - 1]));
            assert(st <= b.len());
            assert(texts(g) =~= seq![gap_text]);
            lemma_joined_one(gap_text);
        } else {
            assert(texts(g) =~= Seq::<Seq<char>>::empty());
            assert(joined(texts(g)) =~= gap_text);
        }
        assert forall|p: int| at <= p < st implies ol[p] == b[p] by {
            assert(white_space(f[p]));
        }
        assert forall|p: int| st <= p < en implies ol[p] == f[p] by {
            assert(!white_space(f[p]));
        }
        assert(ol.take(en) =~= ol.take(at) + gap_text + run_text);
    }
}

/// With all colour left out, the segments of a line pair are the plain
/// overlay of that pair, where the foreground line has no whitespace beyond
/// the background line.
pub proof fn lemma_line_round_trip(b: Seq<char>, f: Seq<char>)
    requires
        line_fits(b, f),
    ensures
        joined(texts(styled_both(b, f))) == overlay_line(b, f),
{
    let ol = overlay_line(b, f);
    let rs = runs(f);
    lemma_runs(f);
    lemma_paint_runs_text(b, f, rs, rs.len() as int);
    assert(rs.take(rs.len() as int) =~= rs);
    let (segs, at) = paint_runs(b, f, rs);
    let g = gap(b, at, b.len() as int);
    assert(texts(segs + g) =~= texts(segs) + texts(g));
    lemma_joined_concat(texts(segs), texts(g));
    if at < b.len() {
        assert(texts(g) =~= seq![b.subrange(at, b.len() as int)]);
        lemma_joined_one(b.subrange(at, b.len() as int));
        if at < f.len() {
            assert(white_space(f[f.len() - 1]));
        }
        assert forall|p: int| at <= p < b.len() implies ol[p] == b[p] by {
            if p < f.len() {
                assert(white_space(f[p]));
            }
        }
        assert(ol =~= ol.take(at) + b.subrange(at, b.len() as int));
    } else {
        assert(texts(g) =~= Seq::<Seq<char>>::empty());
        if at < f.len() {
            assert(white_space(f[f.len() - 1]));
        }
        assert(ol.take(at) =~= ol);
        assert(joined(texts(g)) =~= Seq::<char>::empty());
        assert(ol.take(at) + joined(texts(g)) =~= ol);
    }
}

/// With all colour left out, the styled overlay of two blocks is their plain
/// overlay, where every foreground line that has a background line holds no
/// whitespace beyond that background line's end.
pub proof fn lemma_round_trip(background: Seq<char>, foreground: Seq<char>)
    requires
        blocks_fit(background, foreground),
    ensures
        stripped(styled_lines(background, foreground)) == overlay(background, foreground),
{
    let la = lines(background);
    let lb = lines(foreground);
    let sl = styled_lines(background, foreground);
    let m = sl.map_values(|l: Seq<(Layer, Seq<char>)>| joined(texts(l)));
    let ol = overlay_lines(la, lb);
    assert forall|i: int| 0 <= i < m.len() implies m[i] == ol[i] by {
        if i < la.len() && i < lb.len() {
            assert(line_fits(la[i], lb[i]));
            lemma_line_round_trip(la[i], lb[i]);
        } else if i < la.len() {
            assert(texts(seq![(Layer::Background, la[i])]) =~= seq![la[i]]);
            lemma_joined_one(la[i]);
        } else {
            assert(texts(seq![(Layer::Foreground, lb[i])]) =~= seq![lb[i]]);
            lemma_joined_one(lb[i]);
        }
    }
    assert(m =~= ol);
}

/// Where neither block has a colour, what is written is the text of the
/// segments alone.
pub proof fn lemma_uncolored_pieces(
    segs: Seq<Seq<(Layer, Seq<char>)>>,
    pieces: Seq<Seq<Seq<char>>>,
)
    requires
        painted_as(segs, pieces, (None, None), (None, None)),
    ensures
        joined_lines(pieces) == stripped(segs),
{
    assert forall|i: int| 0 <= i < segs.len() implies pieces[i] == texts(segs[i]) by {
        assert(pieces[i].len() == segs[i].len());
        assert forall|j: int| 0 <= j < segs[i].len() implies pieces[i][j] == texts(segs[i])[j] by {
            let _ = segs[i][j];
        }
        assert(pieces[i] =~= texts(segs[i]));
    }
    assert(pieces.map_values(|l: Seq<Seq<char>>| joined(l)) =~= segs.map_values(
        |l: Seq<(Layer, Seq<char>)>| joined(texts(l)),
    ));
}

proof fn lemma_scan_append(x: Seq<char>, l: Seq<char>)
    requires
        !l.contains('\n'),
    ensures
        scan_lines(x + l) == (scan_lines(x).0, scan_lines(x).1 + l),
    decreases l.len(),
{
    if l.len() == 0 {
        assert(x + l =~= x);
        assert(scan_lines(x).1 + l =~= scan_lines(x).1);
    } else {
        let l0 = l.drop_last();
        assert(!l0.contains('\n')) by {
            assert forall|k: int| 0 <= k < l0.len() implies l0[k] != '\n' by {
                assert(l0[k] == l[k]);
            }
        }
        lemma_scan_append(x, l0);
        assert((x + l).drop_last() =~= x + l0);
        assert((x + l).last() == l.last());
        assert(l.last() != '\n');
        assert((scan_lines(x).1 + l0).push(l.last()) =~= scan_lines(x).1 + l);
    }
}

proof fn lemma_scan_terminated(ls: Seq<Seq<char>>)
    requires
        forall|i: int| 0 <= i < ls.len() ==> !(#[trigger] ls[i]).contains('\n'),
    ensures
        scan_lines(terminated(ls)) == (
            ls.map_values(|l: Seq<char>| strip_cr(l)),
            Seq::<char>::empty(),
        ),
    decreases ls.len(),
{
    if ls.len() == 0 {
        assert(ls.map_values(|l: Seq<char>| strip_cr(l)) =~= Seq::<Seq<char>>::empty());
    } else {
        let init = ls.drop_last();
        assert forall|i: int| 0 <= i < init.len() implies !(#[trigger] init[i]).contains('\n') by {
            assert(init[i] == ls[i]);
        }
        lemma_scan_terminated(init);
        let x = terminated(init);
        let last = ls.last();
        assert(!last.contains('\n'));
        lemma_scan_append(x, last);
        let y = x + last;
        assert(terminated(ls) =~= y.push('\n'));
        assert(y.push('\n').drop_last() =~= y);
        assert(Seq::<char>::empty() + last =~= last);
        assert(init.map_values(|l: Seq<char>| strip_cr(l)).push(strip_cr(last)) =~= ls.map_values(
            |l: Seq<char>| strip_cr(l),
        ));
    }
}

/// Split again into lines, an overlay has as many lines as the longer of the
/// two blocks.
pub proof fn lemma_overlay_lines_count(a: Seq<char>, b: Seq<char>)
    ensures
        lines(overlay(a, b)).len() == if lines(a).len() >= lines(b).len() {
            lines(a).len()
        } else {
            lines(b).len()
        },
{
    lemma_line_count(a, b);
    let ls = overlay_lines(lines(a), lines(b));
    lemma_scan_terminated(ls);
}

/// Where neither block has a colour and every foreground line that has a
/// background line holds no whitespace beyond its end, what `overlap_colored`
/// writes is the plain overlay.
pub proof fn lemma_uncolored_matches_plain(
    background: Seq<char>,
    foreground: Seq<char>,
    pieces: Seq<Seq<Seq<char>>>,
)
    requires
        blocks_fit(background, foreground),
        painted_as(styled_lines(background, foreground), pieces, (None, None), (None, None)),
    ensures
        joined_lines(pieces) == overlay(background, foreground),
{
    lemma_uncolored_pieces(styled_lines(background, foreground), pieces);
    lemma_round_trip(background, foreground);
}

/// `s` with each escape sequence, from `'\x1b'` up to and including the
/// next `'m'`, left out.
pub open spec fn strip_escapes(s: Seq<char>) -> Seq<char>
    decreases s.len(), 1int,
{
    if s.len() == 0 {
        seq![]
    } else if s[0] == '\x1b' {
        skip_escape(s.drop_first())
    } else {
        seq![s[0]] + strip_escapes(s.drop_first())
    }
}

/// `strip_escapes` of what follows the first `'m'` of `s`.
pub open spec fn skip_escape(s: Seq<char>) -> Seq<char>
    decreases s.len(), 0int,
{
    if s.len() == 0 {
        seq![]
    } else if s[0] == 'm' {
        strip_escapes(s.drop_first())
    } else {
        skip_escape(s.drop_first())
    }
}

proof fn lemma_strip_plain(t: Seq<char>, rest: Seq<char>)
    requires
        !t.contains('\x1b'),
    ensures
        strip_escapes(t + rest) == t + strip_escapes(rest),
    decreases t.len(),
{
    if t.len() == 0 {
        assert(t + rest =~= rest);
        assert(t + strip_escapes(rest) =~= strip_escapes(rest));
    } else {
        let t1 = t.drop_first();
        assert(!t1.contains('\x1b')) by {
            assert forall|k: int| 0 <= k < t1.len() implies t1[k] != '\x1b' by {
                assert(t1[k] == t[k + 1]);
            }
        }
        lemma_strip_plain(t1, rest);
        assert((t + rest)[0] == t[0]);
        assert(t[0] != '\x1b');
        assert((t + rest).drop_first() =~= t1 + rest);
        assert(seq![t[0]] + (t1 + strip_escapes(rest)) =~= t + strip_escapes(rest));
    }
}

proof fn lemma_skip_escape(u: Seq<char>, rest: Seq<char>)
    requires
        !u.contains('m'),
    ensures
        skip_escape(u + seq!['m'] + rest) == strip_escapes(rest),
    decreases u.len(),
{
    if u.len() == 0 {
        assert((u + seq!['m'] + rest).drop_first() =~= rest);
    } else {
        let u1 = u.drop_first();
        assert(!u1.contains('m')) by {
            assert forall|k: int| 0 <= k < u1.len() implies u1[k] != 'm' by {
                assert(u1[k] == u[k + 1]);
            }
        }
        lemma_skip_escape(u1, rest);
        assert((u + seq!['m'] + rest)[0] == u[0]);
        assert(u[0] != 'm');
        assert((u + seq!['m'] + rest).drop_first() =~= u1 + seq!['m'] + rest);
    }
}

proof fn lemma_decimal_avoids(n: nat, x: char)
    requires
        !('0' <= x <= '9'),
    ensures
        !decimal(n).contains(x),
    decreases n,
{
    if n >= 10 {
        lemma_decimal_avoids(n / 10, x);
        let d = decimal(n);
        assert forall|k: int| 0 <= k < d.len() implies d[k] != x by {
            if k < d.len() - 1 {
                assert(d[k] == decimal(n / 10)[k]);
            }
        }
    } else {
        assert(decimal(n)[0] != x);
    }
}

proof fn lemma_code_avoids(c: Option<colored::Color>, background: bool, code: Seq<char>, x: char)
    requires
        !('0' <= x <= '9'),
        x != ';',
        optional_code(c, background, code),
    ensures
        !code.contains(x),
{
    if let Some(c) = c {
        match named(c) {
            Some((bright, i)) => {
                assert forall|k: int| 0 <= k < code.len() implies code[k] != x by {}
            },
            None => {
                if let colored::Color::TrueColor { r, g, b } = c {
                    if exists|bright: bool, i: nat| i < 8 && code == #[trigger] named_code(bright, i, background) {
                        let (bright, i) = choose|bright: bool, i: nat| i < 8 && code == #[trigger] named_code(bright, i, background);
                        assert forall|k: int| 0 <= k < code.len() implies code[k] != x by {}
                    } else {
                        lemma_decimal_avoids(r as nat, x);
                        lemma_decimal_avoids(g as nat, x);
                        lemma_decimal_avoids(b as nat, x);
                        let dr = decimal(r as nat);
                        let dg = decimal(g as nat);
                        let db = decimal(b as nat);
                        let head = seq![if background { '4' } else { '3' }, '8', ';', '2', ';'];
                        assert forall|k: int| 0 <= k < code.len() implies code[k] != x by {
                            let h2 = head + dr + seq![';'];
                            let h3 = h2 + dg + seq![';'];
                            assert(code == h3 + db);
                            if k < head.len() {
                            } else if k < head.len() + dr.len() {
                                assert(code[k] == dr[k - head.len()]);
                            } else if k < h2.len() {
                            } else if k < h2.len() + dg.len() {
                                assert(code[k] == dg[k - h2.len()]);
                            } else if k < h3.len() {
                            } else {
                                assert(code[k] == db[k - h3.len()]);
                            }
                        }
                    }
                }
            },
        }
    }
}

/// A piece of text written in some colours, with what follows it, loses its
/// escape sequences to leave the text.
proof fn lemma_strip_piece(
    text: Seq<char>,
    piece: Seq<char>,
    fg: Option<colored::Color>,
    bg: Option<colored::Color>,
    rest: Seq<char>,
)
    requires
        !text.contains('\x1b'),
        painted_in(text, piece, fg, bg),
    ensures
        strip_escapes(piece + rest) == text + strip_escapes(rest),
{
    if piece == text {
        lemma_strip_plain(text, rest);
    } else {
        let (bc, fc) = choose|bc: Seq<char>, fc: Seq<char>|
            optional_code(bg, true, bc) && optional_code(fg, false, fc) && piece == #[trigger] select_code(bc, fc)
                + text + reset_code();
        lemma_code_avoids(bg, true, bc, 'm');
        lemma_code_avoids(fg, false, fc, 'm');
        let sep: Seq<char> = if bc.len() > 0 && fc.len() > 0 { seq![';'] } else { seq![] };
        let u = seq!['['] + bc + sep + fc;
        assert(!u.contains('m')) by {
            assert forall|k: int| 0 <= k < u.len() implies u[k] != 'm' by {
                if 1 <= k < 1 + bc.len() {
                    assert(u[k] == bc[k - 1]);
                } else if 1 + bc.len() + sep.len() <= k {
                    assert(u[k] == fc[k - 1 - bc.len() - sep.len()]);
                }
            }
        }
        let tail = text + reset_code() + rest;
        assert(piece + rest =~= seq!['\x1b'] + (u + seq!['m'] + tail));
        assert((seq!['\x1b'] + (u + seq!['m'] + tail)).drop_first() =~= u + seq!['m'] + tail);
        lemma_skip_escape(u, tail);
        lemma_strip_plain(text, reset_code() + rest);
        assert(text + reset_code() + rest =~= text + (reset_code() + rest));
        let r0 = seq!['[', '0'];
        assert(!r0.contains('m')) by {
            assert(r0[0] != 'm' && r0[1] != 'm');
        }
        assert(reset_code() + rest =~= seq!['\x1b'] + (r0 + seq!['m'] + rest));
        assert((seq!['\x1b'] + (r0 + seq!['m'] + rest)).drop_first() =~= r0 + seq!['m'] + rest);
        lemma_skip_escape(r0, rest);
    }
}

proof fn lemma_strip_line(
    segs: Seq<(Layer, Seq<char>)>,
    pl: Seq<Seq<char>>,
    background: (Option<colored::Color>, Option<colored::Color>),
    foreground: (Option<colored::Color>, Option<colored::Color>),
    rest: Seq<char>,
)
    requires
        pl.len() == segs.len(),
        forall|j: int| 0 <= j < segs.len() ==> piece_ok(#[trigger] segs[j], pl[j], background, foreground),
        forall|j: int| 0 <= j < segs.len() ==> !(#[trigger] segs[j]).1.contains('\x1b'),
    ensures
        strip_escapes(joined(pl) + rest) == joined(texts(segs)) + strip_escapes(rest),
    decreases pl.len(),
{
    if pl.len() == 0 {
        assert(joined(pl) + rest =~= rest);
        assert(texts(segs) =~= Seq::<Seq<char>>::empty());
        assert(joined(texts(segs)) + strip_escapes(rest) =~= strip_escapes(rest));
    } else {
        let n = pl.len() - 1;
        let init = pl.drop_last();
        let sinit = segs.drop_last();
        assert forall|j: int| 0 <= j < sinit.len() implies piece_ok(#[trigger] sinit[j], init[j], background, foreground) by {
            assert(sinit[j] == segs[j]);
        }
        assert forall|j: int| 0 <= j < sinit.len() implies !(#[trigger] sinit[j]).1.contains('\x1b') by {
            assert(sinit[j] == segs[j]);
        }
        let last = pl[n];
        lemma_strip_line(sinit, init, background, foreground, last + rest);
        assert(joined(pl) + rest =~= joined(init) + (last + rest));
        assert(piece_ok(segs[n], last, background, foreground));
        assert(!segs[n].1.contains('\x1b'));
        let (fg, bg) = layer_colors(segs[n].0, background, foreground);
        lemma_strip_piece(segs[n].1, last, fg, bg, rest);
        assert(texts(segs).drop_last() =~= texts(sinit));
        assert(texts(segs).last() == segs[n].1);
        assert(joined(texts(sinit)) + (segs[n].1 + strip_escapes(rest)) =~= joined(texts(segs))
            + strip_escapes(rest));
    }
}

proof fn lemma_strip_lines(
    segs: Seq<Seq<(Layer, Seq<char>)>>,
    pieces: Seq<Seq<Seq<char>>>,
    background: (Option<colored::Color>, Option<colored::Color>),
    foreground: (Option<colored::Color>, Option<colored::Color>),
    rest: Seq<char>,
)
    requires
        painted_as(segs, pieces, background, foreground),
        forall|i: int, j: int|
            0 <= i < segs.len() && 0 <= j < segs[i].len() ==> !(#[trigger] segs[i][j]).1.contains('\x1b'),
    ensures
        strip_escapes(joined_lines(pieces) + rest) == stripped(segs) + strip_escapes(rest),
    decreases segs.len(),
{
    let m = pieces.map_values(|l: Seq<Seq<char>>| joined(l));
    let ms = segs.map_values(|l: Seq<(Layer, Seq<char>)>| joined(texts(l)));
    if segs.len() == 0 {
        assert(m =~= Seq::<Seq<char>>::empty());
        assert(ms =~= Seq::<Seq<char>>::empty());
        assert(joined_lines(pieces) + rest =~= rest);
        assert(stripped(segs) + strip_escapes(rest) =~= strip_escapes(rest));
    } else {
        let n = segs.len() - 1;
        let si = segs.drop_last();
        let pi = pieces.drop_last();
        assert forall|i: int| 0 <= i < si.len() implies #[trigger] pi[i].len() == si[i].len() by {
            assert(pieces[i].len() == segs[i].len());
        }
        assert forall|i: int, j: int| 0 <= i < si.len() && 0 <= j < si[i].len() implies piece_ok(
            #[trigger] si[i][j],
            pi[i][j],
            background,
            foreground,
        ) by {
            assert(si[i][j] == segs[i][j]);
        }
        assert forall|i: int, j: int| 0 <= i < si.len() && 0 <= j < si[i].len() implies !(
        #[trigger] si[i][j]).1.contains('\x1b') by {
            assert(si[i][j] == segs[i][j]);
        }
        let sl = segs[n];
        let pl = pieces[n];
        let nl: Seq<char> = seq!['\n'];
        let after = joined(pl) + (nl + rest);
        lemma_strip_lines(si, pi, background, foreground, after);
        assert(pl.len() == sl.len());
        assert forall|j: int| 0 <= j < sl.len() implies piece_ok(#[trigger] sl[j], pl[j], background, foreground) by {
            assert(piece_ok(segs[n][j], pieces[n][j], background, foreground));
        }
        assert forall|j: int| 0 <= j < sl.len() implies !(#[trigger] sl[j]).1.contains('\x1b') by {
            assert(!segs[n][j].1.contains('\x1b'));
        }
        lemma_strip_line(sl, pl, background, foreground, nl + rest);
        assert(!nl.contains('\x1b')) by {
            assert(nl[0] != '\x1b');
        }
        lemma_strip_plain(nl, rest);
        assert(m.drop_last() =~= pi.map_values(|l: Seq<Seq<char>>| joined(l)));
        assert(ms.drop_last() =~= si.map_values(|l: Seq<(Layer, Seq<char>)>| joined(texts(l))));
        assert(m.last() == joined(pl));
        assert(ms.last() == joined(texts(sl)));
        assert(joined_lines(pieces) + rest =~= joined_lines(pi) + after);
        assert(stripped(segs) + strip_escapes(rest) =~= stripped(si) + (joined(texts(sl)) + (nl
            + strip_escapes(rest))));
    }
}

/// No line of `s` holds a character that `s` does not hold.
proof fn lemma_lines_avoid(s: Seq<char>, c: char)
    requires
        !s.contains(c),
    ensures
        forall|i: int| 0 <= i < lines(s).len() ==> !(#[trigger] lines(s)[i]).contains(c),
{
    lemma_scan_lines_avoid(s, c);
    let (done, cur) = scan_lines(s);
    if cur.len() > 0 {
        let ls = done.push(cur);
        assert forall|i: int| 0 <= i < ls.len() implies !(#[trigger] ls[i]).contains(c) by {
            if i < done.len() {
                assert(ls[i] == done[i]);
            }
        }
    }
}

proof fn lemma_scan_lines_avoid(s: Seq<char>, c: char)
    requires
        !s.contains(c),
    ensures
        forall|i: int| 0 <= i < scan_lines(s).0.len() ==> !(#[trigger] scan_lines(s).0[i]).contains(c),
        !scan_lines(s).1.contains(c),
    decreases s.len(),
{
    if s.len() > 0 {
        let g = s.drop_last();
        assert(!g.contains(c)) by {
            assert forall|k: int| 0 <= k < g.len() implies g[k] != c by {
                assert(g[k] == s[k]);
            }
        }
        lemma_scan_lines_avoid(g, c);
        let (done, cur) = scan_lines(g);
        assert(s.last() != c);
        if s.last() == '\n' {
            let l = strip_cr(cur);
            assert forall|k: int| 0 <= k < l.len() implies l[k] != c by {
                assert(l[k] == cur[k]);
            }
            let d2 = done.push(l);
            assert forall|i: int| 0 <= i < d2.len() implies !(#[trigger] d2[i]).contains(c) by {
                if i < done.len() {
                    assert(d2[i] == done[i]);
                }
            }
        } else {
            let c2 = cur.push(s.last());
            assert forall|k: int| 0 <= k < c2.len() implies c2[k] != c by {
                if k < cur.len() {
                    assert(c2[k] == cur[k]);
                }
            }
        }
    }
}

/// No segment of two blocks holds a character that no line of them holds.
proof fn lemma_segments_avoid(background: Seq<char>, foreground: Seq<char>, c: char)
    requires
        forall|i: int| 0 <= i < lines(background).len() ==> !(#[trigger] lines(background)[i]).contains(c),
        forall|i: int| 0 <= i < lines(foreground).len() ==> !(#[trigger] lines(foreground)[i]).contains(c),
    ensures
        forall|i: int, j: int|
            0 <= i < styled_lines(background, foreground).len() && 0 <= j < styled_lines(
                background,
                foreground,
            )[i].len() ==> !(#[trigger] styled_lines(background, foreground)[i][j]).1.contains(
                c,
            ),
{
    let la = lines(background);
    let lb = lines(foreground);
    let sl = styled_lines(background, foreground);
    assert forall|i: int, j: int| 0 <= i < sl.len() && 0 <= j < sl[i].len() implies !(
    #[trigger] sl[i][j]).1.contains(c) by {
        if i < la.len() && i < lb.len() {
            let b = la[i];
            let f = lb[i];
            assert(!b.contains(c) && !f.contains(c));
            lemma_provenance(b, f);
            let seg = styled_both(b, f)[j];
            assert(sl[i][j] == seg);
            assert(sourced(b, f, seg));
            if seg.0 == Layer::Background {
                let (x, y) = choose|x: int, y: int|
                    0 <= x <= y <= b.len() && #[trigger] b.subrange(x, y) == seg.1 && forall|p: int|
                        x <= p < y && p < f.len() ==> white_space(#[trigger] f[p]);
                assert forall|k: int| 0 <= k < seg.1.len() implies seg.1[k] != c by {
                    assert(seg.1[k] == b[x + k]);
                }
            } else {
                let (x, y) = choose|x: int, y: int|
                    0 <= x <= y <= f.len() && #[trigger] f.subrange(x, y) == seg.1 && forall|p: int|
                        x <= p < y ==> !white_space(#[trigger] f[p]);
                assert forall|k: int| 0 <= k < seg.1.len() implies seg.1[k] != c by {
                    assert(seg.1[k] == f[x + k]);
                }
            }
        } else if i < la.len() {
            assert(!la[i].contains(c));
        } else {
            assert(!lb[i].contains(c));
        }
    }
}

/// With every escape sequence left out, what `overlap_colored` writes is the
/// plain overlay, in any colours, where neither block holds an escape
/// character and every foreground line that has a background line holds no
/// whitespace beyond that background line's end.
pub proof fn lemma_colored_round_trip(
    background: Seq<char>,
    foreground: Seq<char>,
    pieces: Seq<Seq<Seq<char>>>,
    background_colors: (Option<colored::Color>, Option<colored::Color>),
    foreground_colors: (Option<colored::Color>, Option<colored::Color>),
)
    requires
        blocks_fit(background, foreground),
        !background.contains('\x1b'),
        !foreground.contains('\x1b'),
        painted_as(
            styled_lines(background, foreground),
            pieces,
            background_colors,
            foreground_colors,
        ),
    ensures
        strip_escapes(joined_lines(pieces)) == overlay(background, foreground),
{
    let segs = styled_lines(background, foreground);
    lemma_lines_avoid(background, '\x1b');
    lemma_lines_avoid(foreground, '\x1b');
    lemma_segments_avoid(background, foreground, '\x1b');
    let e: Seq<char> = seq![];
    lemma_strip_lines(segs, pieces, background_colors, foreground_colors, e);
    assert(joined_lines(pieces) + e =~= joined_lines(pieces));
    assert(stripped(segs) + strip_escapes(e) =~= stripped(segs));
    lemma_round_trip(background, foreground);
}

/// A piece written for a segment holds no `'\n'` where the segment's text
/// holds neither `'\n'` nor an escape character.
proof fn lemma_piece_no_newline(
    seg: (Layer, Seq<char>),
    piece: Seq<char>,
    background: (Option<colored::Color>, Option<colored::Color>),
    foreground: (Option<colored::Color>, Option<colored::Color>),
)
    requires
        piece_ok(seg, piece, background, foreground),
        !seg.1.contains('\x1b'),
        !seg.1.contains('\n'),
    ensures
        !piece.contains('\n'),
{
    let text = seg.1;
    let (fg, bg) = layer_colors(seg.0, background, foreground);
    assert(painted_in(text, piece, fg, bg));
    if piece != text {
        let (bc, fc) = choose|bc: Seq<char>, fc: Seq<char>|
            optional_code(bg, true, bc) && optional_code(fg, false, fc) && piece == #[trigger] select_code(bc, fc)
                + text + reset_code();
        lemma_code_avoids(bg, true, bc, '\n');
        lemma_code_avoids(fg, false, fc, '\n');
        let sep: Seq<char> = if bc.len() > 0 && fc.len() > 0 { seq![';'] } else { seq![] };
        let h1 = seq!['\x1b', '['] + bc;
        let h2 = h1 + sep;
        let h3 = h2 + fc + seq!['m'];
        let h4 = h3 + text;
        assert(piece =~= h4 + reset_code());
        assert forall|k: int| 0 <= k < piece.len() implies piece[k] != '\n' by {
            if 2 <= k < h1.len() {
                assert(piece[k] == bc[k - 2]);
            } else if h2.len() <= k < h2.len() + fc.len() {
                assert(piece[k] == fc[k - h2.len()]);
            } else if h3.len() <= k < h4.len() {
                assert(piece[k] == text[k - h3.len()]);
            }
        }
    }
}

proof fn lemma_joined_avoids(ps: Seq<Seq<char>>, c: char)
    requires
        forall|j: int| 0 <= j < ps.len() ==> !(#[trigger] ps[j]).contains(c),
    ensures
        !joined(ps).contains(c),
    decreases ps.len(),
{
    if ps.len() > 0 {
        let init = ps.drop_last();
        assert forall|j: int| 0 <= j < init.len() implies !(#[trigger] init[j]).contains(c) by {
            assert(init[j] == ps[j]);
        }
        lemma_joined_avoids(init, c);
        let l = ps.last();
        assert(!l.contains(c));
        let r = joined(ps);
        assert forall|k: int| 0 <= k < r.len() implies r[k] != c by {
            if k < joined(init).len() {
                assert(r[k] == joined(init)[k]);
            } else {
                assert(r[k] == l[k - joined(init).len()]);
            }
        }
    }
}

/// Split into lines, what `overlap_colored` writes has as many lines as the
/// longer block, in any colours, where neither block holds an escape
/// character.
pub proof fn lemma_colored_line_count(
    background: Seq<char>,
    foreground: Seq<char>,
    pieces: Seq<Seq<Seq<char>>>,
    background_colors: (Option<colored::Color>, Option<colored::Color>),
    foreground_colors: (Option<colored::Color>, Option<colored::Color>),
)
    requires
        !background.contains('\x1b'),
        !foreground.contains('\x1b'),
        painted_as(
            styled_lines(background, foreground),
            pieces,
            background_colors,
            foreground_colors,
        ),
    ensures
        lines(joined_lines(pieces)).len() == if lines(background).len() >= lines(
            foreground,
        ).len() {
            lines(background).len()
        } else {
            lines(foreground).len()
        },
{
    let segs = styled_lines(background, foreground);
    lemma_lines_avoid(background, '\x1b');
    lemma_lines_avoid(foreground, '\x1b');
    lemma_segments_avoid(background, foreground, '\x1b');
    lemma_lines_no_newline(background);
    lemma_lines_no_newline(foreground);
    lemma_segments_avoid(background, foreground, '\n');
    let m = pieces.map_values(|l: Seq<Seq<char>>| joined(l));
    assert forall|i: int| 0 <= i < m.len() implies !(#[trigger] m[i]).contains('\n') by {
        let pl = pieces[i];
        assert(pl.len() == segs[i].len());
        assert forall|j: int| 0 <= j < pl.len() implies !(#[trigger] pl[j]).contains('\n') by {
            assert(piece_ok(segs[i][j], pieces[i][j], background_colors, foreground_colors));
            assert(!segs[i][j].1.contains('\x1b'));
            assert(!segs[i][j].1.contains('\n'));
            lemma_piece_no_newline(segs[i][j], pl[j], background_colors, foreground_colors);
        }
        lemma_joined_avoids(pl, '\n');
    }
    lemma_scan_terminated(m);
}

} // verus!
