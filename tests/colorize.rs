use std::io::Write;

use colorizer::palette::{Color, Style};
use colorizer::pattern::{apply_color, assign_color_to_pattern, ColoredPattern};
use colorizer::render::{plan_line, sort_matches, LineOutput, Match, Segment};
use termcolor::{Buffer, BufferWriter, ColorChoice, ColorSpec, WriteColor};

fn term_color(c: Color) -> termcolor::Color {
    match c {
        Color::Red => termcolor::Color::Red,
        Color::Yellow => termcolor::Color::Yellow,
        Color::Blue => termcolor::Color::Blue,
        Color::Green => termcolor::Color::Green,
        Color::Magenta => termcolor::Color::Magenta,
        Color::Cyan => termcolor::Color::Cyan,
        Color::Ansi256(n) => termcolor::Color::Ansi256(n),
    }
}

fn write_output(out: &mut Buffer, line: &str, output: &LineOutput) {
    for seg in &output.segments {
        let text = &line[seg.start..seg.end];
        match seg.style {
            Some(style) => {
                let mut spec = ColorSpec::new();
                if style.background {
                    spec.set_bg(Some(term_color(style.color)));
                } else {
                    spec.set_fg(Some(term_color(style.color)));
                }
                out.set_color(&spec).unwrap();
                out.write_all(text.as_bytes()).unwrap();
                out.reset().unwrap();
            }
            None => out.write_all(text.as_bytes()).unwrap(),
        }
    }
    out.write_all(b"\n").unwrap();
}

fn create_test_writer() -> (BufferWriter, Buffer) {
    let writer = BufferWriter::stdout(ColorChoice::Always);
    let buffer = writer.buffer();
    (writer, buffer)
}

fn get_buffer_contents(buffer: Buffer) -> String {
    String::from_utf8(buffer.into_inner()).unwrap()
}

fn compile(patterns: &[&str], case_sensitive: bool) -> Vec<ColoredPattern> {
    let owned: Vec<String> = patterns.iter().map(|p| p.to_string()).collect();
    match assign_color_to_pattern(&owned, case_sensitive) {
        Ok(ps) => ps,
        Err(e) => panic!("pattern {} did not compile: {}", e.pattern, e.message),
    }
}

fn plain(start: usize, end: usize) -> Segment {
    Segment { start, end, style: None }
}

fn fg(start: usize, end: usize, color: Color) -> Segment {
    Segment { start, end, style: Some(Style { color, background: false }) }
}

fn joined(line: &str, output: &LineOutput) -> String {
    output.segments.iter().map(|s| &line[s.start..s.end]).collect()
}

#[test]
fn test_assign_color_to_pattern() {
    let patterns = vec!["foo".to_string(), "bar".to_string()];
    let result = assign_color_to_pattern(&patterns, true);
    assert!(result.is_ok());
    let patterns = result.ok().unwrap();
    assert_eq!(patterns.len(), 2);
}

#[test]
fn test_apply_color_no_match() {
    let (_writer, mut buffer) = create_test_writer();
    let patterns = compile(&["foo"], true);
    let output = apply_color("bar", &patterns, false, false);
    write_output(&mut buffer, "bar", &output);
    assert!(!output.matched);
    assert_eq!(get_buffer_contents(buffer), "bar\n");
}

#[test]
fn test_apply_color_match() {
    let (_writer, mut buffer) = create_test_writer();
    let patterns = compile(&["foo"], true);
    let output = apply_color("foo", &patterns, false, false);
    write_output(&mut buffer, "foo", &output);
    assert!(output.matched);
    assert!(get_buffer_contents(buffer).contains("foo"));
}

#[test]
fn test_apply_color_match_whole_line() {
    let (_writer, mut buffer) = create_test_writer();
    let patterns = compile(&["foo"], true);
    let output = apply_color("foo", &patterns, true, false);
    write_output(&mut buffer, "foo", &output);
    assert!(output.matched);
    assert!(get_buffer_contents(buffer).contains("foo"));
}

#[test]
fn test_process_input() {
    let input = "foo\nbar\nbaz\nhey foo hoy bar huy\n";
    let patterns = compile(&["foo"], true);
    let (_writer, mut buffer) = create_test_writer();
    for line in input.lines() {
        let output = apply_color(line, &patterns, false, false);
        write_output(&mut buffer, line, &output);
    }
    let result = get_buffer_contents(buffer);
    assert!(result.contains("foo"));
    assert!(result.contains("bar"));
    assert!(result.contains("baz"));
    assert!(result.contains("hey"));
    assert!(result.contains("hoy"));
    assert!(result.contains("huy"));
    assert!(result.matches("foo").count() == 2);
    assert!(result.matches("bar").count() == 2);
    assert!(result.matches("baz").count() == 1);
}

#[test]
fn palette_wraps_after_twelve_patterns() {
    let names: Vec<String> = (0..14).map(|i| format!("p{}", i)).collect();
    let ps = assign_color_to_pattern(&names, false).ok().unwrap();
    assert_eq!(ps.len(), 14);
    assert_eq!(ps[0].color(), Color::Red);
    assert_eq!(ps[1].color(), Color::Yellow);
    assert_eq!(ps[5].color(), Color::Cyan);
    assert_eq!(ps[6].color(), Color::Ansi256(49));
    assert_eq!(ps[11].color(), Color::Ansi256(165));
    assert_eq!(ps[12].color(), Color::Red);
    assert_eq!(ps[13].color(), Color::Yellow);
    assert_eq!(ps[3].source(), "p3");
    assert!(ps[3].case_insensitive());
}

#[test]
fn colors_do_not_depend_on_pattern_text() {
    let a = compile(&["x", "y", "z"], true);
    let b = compile(&["[0-9]+", "a|b", "q"], false);
    for i in 0..3 {
        assert_eq!(a[i].color(), b[i].color());
    }
    assert!(!a[0].case_insensitive());
}

#[test]
fn case_insensitive_match_is_styled() {
    let patterns = compile(&["foo"], false);
    let output = apply_color("FOO bar", &patterns, false, false);
    assert!(output.matched);
    assert_eq!(output.segments, vec![plain(0, 0), fg(0, 3, Color::Red), plain(3, 7)]);
    assert_eq!(joined("FOO bar", &output), "FOO bar");
}

#[test]
fn case_sensitive_miss_passes_line_through() {
    let patterns = compile(&["foo"], true);
    let output = apply_color("FOO bar", &patterns, false, false);
    assert!(!output.matched);
    assert_eq!(output.segments, vec![plain(0, 7)]);
    let (_writer, mut buffer) = create_test_writer();
    write_output(&mut buffer, "FOO bar", &output);
    assert_eq!(get_buffer_contents(buffer), "FOO bar\n");
}

#[test]
fn two_patterns_get_their_own_colors() {
    let line = "hey foo hoy bar huy";
    let patterns = compile(&["foo", "bar"], false);
    let output = apply_color(line, &patterns, false, false);
    assert!(output.matched);
    assert_eq!(
        output.segments,
        vec![
            plain(0, 4),
            fg(4, 7, Color::Red),
            plain(7, 12),
            fg(12, 15, Color::Yellow),
            plain(15, 19),
        ]
    );
    assert_eq!(joined(line, &output), line);
}

#[test]
fn whole_line_mode_styles_entire_line() {
    let patterns = compile(&["foo"], false);
    let output = apply_color("foo bar", &patterns, true, false);
    assert!(output.matched);
    assert_eq!(output.segments, vec![fg(0, 7, Color::Red)]);
    let (_writer, mut buffer) = create_test_writer();
    write_output(&mut buffer, "foo bar", &output);
    let text = get_buffer_contents(buffer);
    assert!(text.starts_with("\u{1b}["));
    assert!(text.ends_with("foo bar\u{1b}[0m\n"));
}

#[test]
fn empty_pattern_list_never_matches() {
    let patterns = compile(&[], false);
    for line in ["", "abc", "foo bar"] {
        let output = apply_color(line, &patterns, false, false);
        assert!(!output.matched);
        assert_eq!(output.segments, vec![plain(0, line.len())]);
        let output = apply_color(line, &patterns, true, true);
        assert!(!output.matched);
    }
}

#[test]
fn invalid_pattern_is_reported_by_name() {
    let patterns = vec!["foo".to_string(), "ba(r".to_string(), "(".to_string()];
    match assign_color_to_pattern(&patterns, false) {
        Ok(_) => panic!("an unbalanced parenthesis compiled"),
        Err(e) => {
            assert_eq!(e.pattern, "ba(r");
            assert!(!e.message.is_empty());
        }
    }
}

#[test]
fn overlapping_later_match_is_dropped() {
    let line = "foo bar baz";
    for order in [["foo bar", "bar baz"], ["bar baz", "foo bar"]] {
        let patterns = compile(&order, false);
        let output = apply_color(line, &patterns, false, false);
        let first = patterns[if order[0] == "foo bar" { 0 } else { 1 }].color();
        assert_eq!(output.segments, vec![plain(0, 0), fg(0, 7, first), plain(7, 11)]);
        assert_eq!(joined(line, &output), line);
    }
}

#[test]
fn equal_starts_go_to_first_pattern() {
    let patterns = compile(&["fo", "foo"], false);
    let output = apply_color("foo", &patterns, false, false);
    assert_eq!(output.segments, vec![plain(0, 0), fg(0, 2, Color::Red), plain(2, 3)]);
    let output = apply_color("foo", &patterns, true, false);
    assert_eq!(output.segments, vec![fg(0, 3, Color::Red)]);
    let patterns = compile(&["foo", "fo"], false);
    let output = apply_color("foo", &patterns, false, false);
    assert_eq!(output.segments, vec![plain(0, 0), fg(0, 3, Color::Red), plain(3, 3)]);
}

#[test]
fn whole_line_takes_earliest_match_color() {
    let patterns = compile(&["bar", "foo"], false);
    let output = apply_color("foo bar", &patterns, true, true);
    let expected = Segment {
        start: 0,
        end: 7,
        style: Some(Style { color: Color::Yellow, background: true }),
    };
    assert_eq!(output.segments, vec![expected]);
}

#[test]
fn background_flag_is_carried() {
    let patterns = compile(&["b"], false);
    let output = apply_color("abc", &patterns, false, true);
    let styled = Segment { start: 1, end: 2, style: Some(Style { color: Color::Red, background: true }) };
    assert_eq!(output.segments, vec![plain(0, 1), styled, plain(2, 3)]);
}

#[test]
fn repeated_matches_of_one_pattern() {
    let line = "a1b22c333";
    let patterns = compile(&["[0-9]+"], false);
    let output = apply_color(line, &patterns, false, false);
    assert_eq!(
        output.segments,
        vec![
            plain(0, 1),
            fg(1, 2, Color::Red),
            plain(2, 3),
            fg(3, 5, Color::Red),
            plain(5, 6),
            fg(6, 9, Color::Red),
            plain(9, 9),
        ]
    );
    assert_eq!(joined(line, &output), line);
}

#[test]
fn zero_width_matches_keep_the_line_whole() {
    let line = "abc";
    let patterns = compile(&["x*", "b"], false);
    let output = apply_color(line, &patterns, false, false);
    assert!(output.matched);
    assert_eq!(joined(line, &output), line);
    for seg in &output.segments {
        assert!(seg.start <= seg.end);
    }
}

#[test]
fn multibyte_text_is_split_on_char_boundaries() {
    let line = "αβγ foo δ";
    let patterns = compile(&["β", "foo"], false);
    let output = apply_color(line, &patterns, false, false);
    assert_eq!(joined(line, &output), line);
    assert_eq!(&line[output.segments[1].start..output.segments[1].end], "β");
}

#[test]
fn sort_is_stable_by_start() {
    let m = |start: usize, end: usize, color: Color| Match { start, end, color };
    let input = vec![
        m(5, 6, Color::Red),
        m(1, 3, Color::Blue),
        m(5, 9, Color::Green),
        m(0, 1, Color::Cyan),
        m(1, 2, Color::Magenta),
    ];
    let sorted = sort_matches(&input);
    assert_eq!(
        sorted,
        vec![
            m(0, 1, Color::Cyan),
            m(1, 3, Color::Blue),
            m(1, 2, Color::Magenta),
            m(5, 6, Color::Red),
            m(5, 9, Color::Green),
        ]
    );
}

#[test]
fn plan_line_skips_overlaps_and_keeps_gaps() {
    let matches = vec![
        Match { start: 4, end: 8, color: Color::Blue },
        Match { start: 0, end: 2, color: Color::Red },
        Match { start: 6, end: 10, color: Color::Green },
        Match { start: 8, end: 8, color: Color::Cyan },
    ];
    let output = plan_line(12, &matches, false, false);
    assert!(output.matched);
    assert_eq!(
        output.segments,
        vec![
            plain(0, 0),
            fg(0, 2, Color::Red),
            plain(2, 4),
            fg(4, 8, Color::Blue),
            plain(8, 8),
            fg(8, 8, Color::Cyan),
            plain(8, 12),
        ]
    );
    let whole = plan_line(12, &matches, true, false);
    assert_eq!(whole.segments, vec![fg(0, 12, Color::Red)]);
    let none = plan_line(12, &Vec::new(), true, false);
    assert!(!none.matched);
    assert_eq!(none.segments, vec![plain(0, 12)]);
}
