use colored::{Color, ColoredString, Colorize};
use string_overlap::paint::{overlap_colored, StyledText};
use string_overlap::plain::overlap;
use string_overlap::styled::{overlay_segments, Layer};

fn background_block() -> String {
    let mut s = String::new();
    for _ in 0..10 {
        s.push_str("......................................\n");
    }
    s
}

fn foreground_block() -> String {
    let vertical = "                  |||\n";
    let horizontal = "||||||||||||||||||||||||||||||||||||||\n";
    format!("{}{}{}", vertical.repeat(4), horizontal.repeat(2), vertical.repeat(4))
}

fn colored(c: ColoredString) -> StyledText {
    StyledText::new(&c.input, c.fgcolor, c.bgcolor)
}

#[test]
fn plain_on_plain() {
    let expected = "\
..................|||.................
..................|||.................
..................|||.................
..................|||.................
||||||||||||||||||||||||||||||||||||||
||||||||||||||||||||||||||||||||||||||
..................|||.................
..................|||.................
..................|||.................
..................|||.................
";
    let background = colored(background_block().as_str().into());
    let foreground = colored(foreground_block().as_str().into());
    let actual = overlap_colored(background, foreground);
    assert_eq!(actual, expected, "got\n{actual}\nexpected\n{expected}", actual = actual, expected = expected);
}

#[test]
fn plain_on_colored() {
    let expected = {
        let vertical_line = format!(
            "{left}{middle}{right}\n",
            left = "..................".red(),
            middle = ColoredString::from("|||"),
            right = ".................".red(),
        );
        let horizontal_line: ColoredString = "||||||||||||||||||||||||||||||||||||||".into();
        let horizontal_line = format!("{}\n", horizontal_line);
        format!(
            "{top}{middle}{bottom}",
            top = vertical_line.repeat(4),
            middle = horizontal_line.repeat(2),
            bottom = vertical_line.repeat(4),
        )
    };
    let background = colored(background_block().as_str().red());
    let foreground = colored(foreground_block().as_str().into());
    let actual = overlap_colored(background, foreground);
    assert_eq!(actual, expected, "got\n{actual}\nexpected\n{expected}", actual = actual, expected = expected);
}

#[test]
fn colored_on_plain() {
    let expected = {
        let vertical_line = format!(
            "{left}{middle}{right}\n",
            left = ColoredString::from(".................."),
            middle = "|||".blue(),
            right = ColoredString::from("................."),
        );
        let horizontal_line = "||||||||||||||||||||||||||||||||||||||".blue();
        let horizontal_line = format!("{}\n", horizontal_line);
        format!(
            "{top}{middle}{bottom}",
            top = vertical_line.repeat(4),
            middle = horizontal_line.repeat(2),
            bottom = vertical_line.repeat(4),
        )
    };
    let background = colored(background_block().as_str().into());
    let foreground = colored(foreground_block().as_str().blue());
    let actual = overlap_colored(background, foreground);
    assert_eq!(actual, expected, "got\n{actual}\nexpected\n{expected}", actual = actual, expected = expected);
}

#[test]
fn colored_on_colored() {
    let expected = {
        let vertical_line = format!(
            "{left}{middle}{right}\n",
            left = "..................".blue(),
            middle = "|||".yellow(),
            right = ".................".blue(),
        );
        let horizontal_line = "||||||||||||||||||||||||||||||||||||||".yellow();
        let horizontal_line = format!("{}\n", horizontal_line);
        format!(
            "{top}{middle}{bottom}",
            top = vertical_line.repeat(4),
            middle = horizontal_line.repeat(2),
            bottom = vertical_line.repeat(4),
        )
    };
    let background = colored(background_block().as_str().blue());
    let foreground = colored(foreground_block().as_str().yellow());
    let actual = overlap_colored(background, foreground);
    assert_eq!(actual, expected, "got\n{actual}\nexpected\n{expected}", actual = actual, expected = expected);
}

#[test]
fn colored_text_is_painted() {
    colored::control::set_override(true);
    let background = StyledText::new("...", Some(Color::Red), None);
    let foreground = StyledText::new(" o", None, Some(Color::Blue));
    let actual = overlap_colored(background, foreground);
    let expected = format!("{}{}{}\n", ".".red(), "o".on_blue(), ".".red());
    assert_eq!(actual, expected);
    assert_ne!(actual, ".o.\n");
}

#[test]
fn styled_line_count_matches_plain() {
    let b = background_block();
    let f = foreground_block();
    let actual = overlap_colored(StyledText::new(&b, None, None), StyledText::new(&f, None, None));
    assert_eq!(actual, overlap(&b, &f));
    assert_eq!(actual.lines().count(), 10);
}

#[test]
fn styled_round_trip_unequal_blocks() {
    let b = "....\n....\n....";
    let f = " ab\nxyzzy";
    let actual = overlap_colored(StyledText::new(b, None, None), StyledText::new(f, None, None));
    assert_eq!(actual, overlap(b, f));
    assert_eq!(actual, ".ab.\nxyzzy\n....\n");
}

#[test]
fn segments_carry_provenance() {
    let lines = overlay_segments("......\n..", "  ab c\n\nxy");
    assert_eq!(lines.len(), 3);
    let first: Vec<(Layer, String)> = lines[0].iter().map(|s| (s.layer, s.text.clone())).collect();
    assert_eq!(
        first,
        vec![
            (Layer::Background, "..".to_string()),
            (Layer::Foreground, "ab".to_string()),
            (Layer::Background, ".".to_string()),
            (Layer::Foreground, "c".to_string()),
        ]
    );
    let second: Vec<(Layer, String)> = lines[1].iter().map(|s| (s.layer, s.text.clone())).collect();
    assert_eq!(second, vec![(Layer::Background, "..".to_string())]);
    let third: Vec<(Layer, String)> = lines[2].iter().map(|s| (s.layer, s.text.clone())).collect();
    assert_eq!(third, vec![(Layer::Foreground, "xy".to_string())]);
}

#[test]
fn segments_skip_gap_beyond_background() {
    let lines = overlay_segments("...", "  x  yy");
    let only: Vec<(Layer, String)> = lines[0].iter().map(|s| (s.layer, s.text.clone())).collect();
    assert_eq!(
        only,
        vec![
            (Layer::Background, "..".to_string()),
            (Layer::Foreground, "x".to_string()),
            (Layer::Foreground, "yy".to_string()),
        ]
    );
}

#[test]
fn both_colours_on_one_piece() {
    colored::control::set_override(true);
    let background = StyledText::new("..", Some(Color::Red), Some(Color::White));
    let foreground = StyledText::new("x", Some(Color::BrightBlue), Some(Color::Black));
    let actual = overlap_colored(background, foreground);
    assert_eq!(actual, "\x1b[40;94mx\x1b[0m\x1b[47;31m.\x1b[0m\n");
}

#[test]
fn single_source_lines_are_whole_and_terminated() {
    colored::control::set_override(true);
    let background = StyledText::new("ab\ncd", Some(Color::Green), None);
    let foreground = StyledText::new("x", None, Some(Color::Yellow));
    let actual = overlap_colored(background, foreground);
    assert_eq!(actual, "\x1b[43mx\x1b[0m\x1b[32mb\x1b[0m\n\x1b[32mcd\x1b[0m\n");
    assert_eq!(actual.matches('\n').count(), 2);
}

#[test]
fn doc_example_colours() {
    colored::control::set_override(true);
    let background = StyledText::new("...\n...\n...", Some(Color::Red), None);
    let foreground = StyledText::new("foo\n  o\n  f", Some(Color::Blue), None);
    let expected = format!(
        "{}\n{}{}\n{}{}\n",
        "foo".blue(),
        "..".red(),
        "o".blue(),
        "..".red(),
        "f".blue()
    );
    assert_eq!(overlap_colored(background, foreground), expected);
}
