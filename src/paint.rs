use vstd::prelude::*;
use colored::Colorize;
use crate::styled::{Layer, Segment, styled_lines, styled_view, overlay_segments};
use crate::text::{push_char, terminated};

verus! {

#[verifier::external_type_specification]
pub struct ExColor(colored::Color);

/// The sequence that ends a coloured piece of text.
pub open spec fn reset_code() -> Seq<char> {
    seq!['\x1b', '[', '0', 'm']
}

/// The decimal digit `d`.
pub open spec fn digit(d: nat) -> char {
    if d == 0 { '0' } else if d == 1 { '1' } else if d == 2 { '2' } else if d == 3 { '3' }
    else if d == 4 { '4' } else if d == 5 { '5' } else if d == 6 { '6' } else if d == 7 { '7' }
    else if d == 8 { '8' } else { '9' }
}

/// `n` written in decimal.
pub open spec fn decimal(n: nat) -> Seq<char>
    decreases n,
{
    if n < 10 {
        seq![digit(n)]
    } else {
        decimal(n / 10).push(digit(n % 10))
    }
}

/// For one of the sixteen named colours: whether it is a bright one, and its
/// place among the eight (black, red, green, yellow, blue, magenta, cyan,
/// white); `None` for a true colour.
pub open spec fn named(c: colored::Color) -> Option<(bool, nat)> {
    match c {
        colored::Color::Black => Some((false, 0)),
        colored::Color::Red => Some((false, 1)),
        colored::Color::Green => Some((false, 2)),
        colored::Color::Yellow => Some((false, 3)),
        colored::Color::Blue => Some((false, 4)),
        colored::Color::Magenta => Some((false, 5)),
        colored::Color::Cyan => Some((false, 6)),
        colored::Color::White => Some((false, 7)),
        colored::Color::BrightBlack => Some((true, 0)),
        colored::Color::BrightRed => Some((true, 1)),
        colored::Color::BrightGreen => Some((true, 2)),
        colored::Color::BrightYellow => Some((true, 3)),
        colored::Color::BrightBlue => Some((true, 4)),
        colored::Color::BrightMagenta => Some((true, 5)),
        colored::Color::BrightCyan => Some((true, 6)),
        colored::Color::BrightWhite => Some((true, 7)),
        colored::Color::TrueColor { .. } => None,
    }
}

/// The terminal code of the named colour at place `i`, as a foreground
/// colour (`30`-`37`, `90`-`97`) or as a background colour (`40`-`47`,
/// `100`-`107`).
pub open spec fn named_code(bright: bool, i: nat, background: bool) -> Seq<char> {
    if background {
        if bright { seq!['1', '0', digit(i)] } else { seq!['4', digit(i)] }
    } else {
        if bright { seq!['9', digit(i)] } else { seq!['3', digit(i)] }
    }
}

/// `code` is a terminal code for `c` as a foreground or a background colour.
/// A true colour is written as `38;2;r;g;b` (`48;2;r;g;b` for a background)
/// where the terminal supports it, and else as some named colour.
pub open spec fn color_code(c: colored::Color, background: bool, code: Seq<char>) -> bool {
    match named(c) {
        Some((bright, i)) => code == named_code(bright, i, background),
        None => match c {
            colored::Color::TrueColor { r, g, b } => {
                code == seq![if background { '4' } else { '3' }, '8', ';', '2', ';']
                    + decimal(r as nat) + seq![';'] + decimal(g as nat) + seq![';']
                    + decimal(b as nat)
                || exists|bright: bool, i: nat| i < 8 && code == #[trigger] named_code(bright, i, background)
            },
            _ => false,
        },
    }
}

/// `code` is the code of the colour `c` if one is set, and empty if not.
pub open spec fn optional_code(c: Option<colored::Color>, background: bool, code: Seq<char>) -> bool {
    match c {
        Some(c) => color_code(c, background, code),
        None => code.len() == 0,
    }
}

/// The escape sequence that selects a background code `bc` and a foreground
/// code `fc`, either of which may be empty.
pub open spec fn select_code(bc: Seq<char>, fc: Seq<char>) -> Seq<char> {
    seq!['\x1b', '['] + bc + (if bc.len() > 0 && fc.len() > 0 { seq![';'] } else { seq![] }) + fc
        + seq!['m']
}

/// `piece` is `text` as written in the colours `fg` and `bg`: the text alone
/// where neither is set or colour is switched off, and else the escape
/// sequence that selects them, the text, and the reset sequence.
pub open spec fn painted_in(
    text: Seq<char>,
    piece: Seq<char>,
    fg: Option<colored::Color>,
    bg: Option<colored::Color>,
) -> bool {
    if fg.is_none() && bg.is_none() {
        piece == text
    } else {
        piece == text || exists|bc: Seq<char>, fc: Seq<char>|
            optional_code(bg, true, bc) && optional_code(fg, false, fc) && piece == #[trigger] select_code(bc, fc)
                + text + reset_code()
    }
}

/// Relies on `Colorize::color` and `Colorize::on_color` for `&str` and
/// `ColoredString`, which set the foreground and the background colour with
/// no style, and on `Display for ColoredString`: with neither colour set, or
/// with colour switched off, it writes the text alone; else `"\x1b["`, the
/// background code (`Color::to_bg_str`), `';'` where both are set, the
/// foreground code (`Color::to_fg_str`), `'m'`, the text and `"\x1b[0m"`.
/// The text is written unchanged where it holds no escape character.
#[verifier::external_body]
fn paint(s: &str, fg: Option<colored::Color>, bg: Option<colored::Color>) -> (r: String)
    ensures
        fg.is_none() && bg.is_none() ==> r@ == s@,
        !s@.contains('\x1b') ==> painted_in(s@, r@, fg, bg),
{
    let c: colored::ColoredString = match fg {
        Some(color) => s.color(color),
        None => s.into(),
    };
    let c = match bg {
        Some(color) => c.on_color(color),
        None => c,
    };
    c.to_string()
}

/// A block of text with one optional foreground and one optional background
/// colour for the whole block.
pub struct StyledText {
    pub text: String,
    pub fg: Option<colored::Color>,
    pub bg: Option<colored::Color>,
}

impl StyledText {
    /// The block `text` with the colours `fg` and `bg`.
    pub fn new(text: &str, fg: Option<colored::Color>, bg: Option<colored::Color>) -> (r:
        StyledText)
        ensures
            r.text@ == text@,
            r.fg == fg,
            r.bg == bg,
    {
        StyledText { text: text.to_string(), fg, bg }
    }

    /// The foreground and the background colour.
    pub open spec fn colors(&self) -> (Option<colored::Color>, Option<colored::Color>) {
        (self.fg, self.bg)
    }
}

/// The characters of `ps`, one after the other.
pub open spec fn joined(ps: Seq<Seq<char>>) -> Seq<char>
    decreases ps.len(),
{
    if ps.len() == 0 {
        seq![]
    } else {
        joined(ps.drop_last()) + ps.last()
    }
}

/// The text of lines made of pieces, each line followed by `'\n'`.
pub open spec fn joined_lines(pieces: Seq<Seq<Seq<char>>>) -> Seq<char> {
    terminated(pieces.map_values(|l: Seq<Seq<char>>| joined(l)))
}

/// The colours, foreground then background, of the block that `layer`
/// names.
pub open spec fn layer_colors(
    layer: Layer,
    background: (Option<colored::Color>, Option<colored::Color>),
    foreground: (Option<colored::Color>, Option<colored::Color>),
) -> (Option<colored::Color>, Option<colored::Color>) {
    if layer == Layer::Background {
        background
    } else {
        foreground
    }
}

/// `piece` is what was written for the segment `seg`: its text in the colours
/// of the block it comes from (the text alone where that block has none).
pub open spec fn piece_ok(
    seg: (Layer, Seq<char>),
    piece: Seq<char>,
    background: (Option<colored::Color>, Option<colored::Color>),
    foreground: (Option<colored::Color>, Option<colored::Color>),
) -> bool {
    let (fg, bg) = layer_colors(seg.0, background, foreground);
    &&& fg.is_none() && bg.is_none() ==> piece == seg.1
    &&& !seg.1.contains('\x1b') ==> painted_in(seg.1, piece, fg, bg)
}

/// `pieces[i][j]` is what was written for segment `j` of line `i`.
pub open spec fn painted_as(
    segs: Seq<Seq<(Layer, Seq<char>)>>,
    pieces: Seq<Seq<Seq<char>>>,
    background: (Option<colored::Color>, Option<colored::Color>),
    foreground: (Option<colored::Color>, Option<colored::Color>),
) -> bool {
    &&& pieces.len() == segs.len()
    &&& forall|i: int| 0 <= i < segs.len() ==> #[trigger] pieces[i].len() == segs[i].len()
    &&& forall|i: int, j: int|
        0 <= i < segs.len() && 0 <= j < segs[i].len() ==> piece_ok(
            #[trigger] segs[i][j],
            pieces[i][j],
            background,
            foreground,
        )
}

/// Writes each segment of each line in the colours of the block it comes
/// from, and `'\n'` after each line.
pub fn render(lines: &Vec<Vec<Segment>>, background: &StyledText, foreground: &StyledText) -> (r:
    String)
    ensures
        exists|pieces: Seq<Seq<Seq<char>>>|
            painted_as(
                styled_view(lines@),
                pieces,
                background.colors(),
                foreground.colors(),
            ) && r@ == joined_lines(pieces),
{
    let ghost segs = styled_view(lines@);
    let ghost mut pieces: Seq<Seq<Seq<char>>> = seq![];
    let mut r = String::new();
    let mut i: usize = 0;
    while i < lines.len()
        invariant
            segs == styled_view(lines@),
            i <= lines.len(),
            painted_as(segs.take(i as int), pieces, background.colors(), foreground.colors()),
            r@ == joined_lines(pieces),
        decreases lines.len() - i,
    {
        let line = &lines[i];
        let ghost mut cur: Seq<Seq<char>> = seq![];
        let ghost start = r@;
        let mut j: usize = 0;
        while j < line.len()
            invariant
                segs == styled_view(lines@),
                i < lines.len(),
                line == lines@[i as int],
                j <= line.len(),
                cur.len() == j,
                forall|k: int|
                    0 <= k < j ==> piece_ok(
                        #[trigger] segs[i as int][k],
                        cur[k],
                        background.colors(),
                        foreground.colors(),
                    ),
                r@ == start + joined(cur),
            decreases line.len() - j,
        {
            let seg = &line[j];
            let piece = match seg.layer {
                Layer::Background => paint(seg.text.as_str(), background.fg, background.bg),
                Layer::Foreground => paint(seg.text.as_str(), foreground.fg, foreground.bg),
            };
            let ghost prev = cur;
            proof {
                cur = cur.push(piece@);
                assert(cur.drop_last() =~= prev);
            }
            crate::text::push_chars_str(&mut r, piece.as_str());
            j = j + 1;
        }
        push_char(&mut r, '\n');
        proof {
            let next = pieces.push(cur);
            assert(next.map_values(|l: Seq<Seq<char>>| joined(l)).drop_last() =~= pieces.map_values(
                |l: Seq<Seq<char>>| joined(l),
            ));
            assert(segs.take(i + 1).drop_last() =~= segs.take(i as int));
            pieces = next;
        }
        i = i + 1;
    }
    assert(segs.take(i as int) =~= segs);
    r
}

/// Draws `foreground` over `background` as `overlay_segments` pieces the
/// lines together, and writes each piece in the colours of the block it comes
/// from, with `'\n'` after every line.
pub fn overlap_colored(background: StyledText, foreground: StyledText) -> (r: String)
    ensures
        exists|pieces: Seq<Seq<Seq<char>>>|
            painted_as(
                styled_lines(background.text@, foreground.text@),
                pieces,
                background.colors(),
                foreground.colors(),
            ) && r@ == joined_lines(pieces),
{
    let lines = overlay_segments(background.text.as_str(), foreground.text.as_str());
    render(&lines, &background, &foreground)
}

} // verus!
