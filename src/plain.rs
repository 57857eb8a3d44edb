use vstd::prelude::*;
use crate::align::{zip_longest, zip_longest_exec, EitherOrBoth};
use crate::text::{
    white_space, is_whitespace, lines, lines_view, terminated, split_lines, push_char,
    push_chars,
};

verus! {

/// The character shown at one aligned position of a background and a
/// foreground line: the foreground's unless it is whitespace.
pub open spec fn merge_char(p: EitherOrBoth<char, char>) -> char {
    match p {
        EitherOrBoth::Both(b, f) => if white_space(f) { b } else { f },
        EitherOrBoth::Left(b) => b,
        EitherOrBoth::Right(f) => f,
    }
}

/// One foreground line drawn over one background line.
pub open spec fn overlay_line(b: Seq<char>, f: Seq<char>) -> Seq<char> {
    zip_longest(b, f).map_values(|p: EitherOrBoth<char, char>| merge_char(p))
}

/// The line shown at one aligned position of the two blocks.
pub open spec fn merge_line(p: EitherOrBoth<Seq<char>, Seq<char>>) -> Seq<char> {
    match p {
        EitherOrBoth::Both(b, f) => overlay_line(b, f),
        EitherOrBoth::Left(b) => b,
        EitherOrBoth::Right(f) => f,
    }
}

/// The lines of the foreground block drawn over those of the background block.
pub open spec fn overlay_lines(b: Seq<Seq<char>>, f: Seq<Seq<char>>) -> Seq<Seq<char>> {
    zip_longest(b, f).map_values(|p: EitherOrBoth<Seq<char>, Seq<char>>| merge_line(p))
}

/// The text of `overlap(background, foreground)`.
pub open spec fn overlay(background: Seq<char>, foreground: Seq<char>) -> Seq<char> {
    terminated(overlay_lines(lines(background), lines(foreground)))
}

/// Draws the line `f` over the line `b`, character by character.
pub fn overlay_line_exec(b: &Vec<char>, f: &Vec<char>) -> (r: Vec<char>)
    ensures
        r@ == overlay_line(b@, f@),
{
    let pairs = zip_longest_exec(b.as_slice(), f.as_slice());
    let mut r: Vec<char> = Vec::new();
    let mut i: usize = 0;
    while i < pairs.len()
        invariant
            pairs@ == zip_longest(b@, f@),
            i <= pairs.len(),
            r@ == overlay_line(b@, f@).take(i as int),
        decreases pairs.len() - i,
    {
        let c = match pairs[i] {
            EitherOrBoth::Both(bc, fc) => if is_whitespace(fc) { bc } else { fc },
            EitherOrBoth::Left(bc) => bc,
            EitherOrBoth::Right(fc) => fc,
        };
        r.push(c);
        i = i + 1;
        assert(r@ =~= overlay_line(b@, f@).take(i as int));
    }
    assert(r@ =~= overlay_line(b@, f@));
    r
}

/// Places `foreground` on top of `background`: line by line, and within a
/// pair of lines character by character, whitespace of the foreground shows
/// the background beneath it. Every line of the result ends with `'\n'`.
pub fn overlap(background: &str, foreground: &str) -> (r: String)
    ensures
        r@ == overlay(background@, foreground@),
{
    let bl = split_lines(background);
    let fl = split_lines(foreground);
    let ghost bs = lines_view(bl@);
    let ghost fs = lines_view(fl@);
    let n: usize = if bl.len() >= fl.len() { bl.len() } else { fl.len() };
    let mut r = String::new();
    let mut i: usize = 0;
    while i < n
        invariant
            bs == lines(background@),
            fs == lines(foreground@),
            bs == lines_view(bl@),
            fs == lines_view(fl@),
            n as int == overlay_lines(bs, fs).len(),
            i <= n,
            r@ == terminated(overlay_lines(bs, fs).take(i as int)),
        decreases n - i,
    {
        if i < bl.len() && i < fl.len() {
            let line = overlay_line_exec(&bl[i], &fl[i]);
            push_chars(&mut r, &line);
        } else if i < bl.len() {
            push_chars(&mut r, &bl[i]);
        } else {
            push_chars(&mut r, &fl[i]);
        }
        push_char(&mut r, '\n');
        let ghost t = overlay_lines(bs, fs).take(i + 1);
        assert(t.drop_last() =~= overlay_lines(bs, fs).take(i as int));
        i = i + 1;
    }
    assert(overlay_lines(bs, fs).take(n as int) =~= overlay_lines(bs, fs));
    r
}

} // verus!
