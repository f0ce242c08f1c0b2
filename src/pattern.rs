use vstd::prelude::*;
use vstd::string::StringSliceAdditionalSpecFns;

use crate::palette::{color_for_index, palette_color, Color};
use crate::render::{
    all_within, concat_slices, lemma_span_mode_round_trip, line_plan, plan_line, LineOutput, Match,
};

verus! {

#[verifier::external_type_specification]
#[verifier::external_body]
pub struct ExRegex(regex::Regex);

#[verifier::external_type_specification]
#[verifier::external_body]
pub struct ExRegexError(regex::Error);

/// Whether `pattern` is a regular expression that the regex crate accepts,
/// with case-insensitive matching when `case_insensitive` holds.
pub uninterp spec fn regex_compiles(pattern: Seq<char>, case_insensitive: bool) -> bool;

/// The byte ranges of the successive non-overlapping matches of `pattern`
/// (compiled with `case_insensitive`) in `haystack`, as the regex crate finds
/// them.
pub uninterp spec fn regex_spans(pattern: Seq<char>, case_insensitive: bool, haystack: Seq<char>) -> Seq<
    (usize, usize),
>;

/// A compiled pattern with the color it was given.
///
/// The fields are private and set only by `compile_pattern`, so `regex` is
/// always `source` compiled with `case_insensitive`.
pub struct ColoredPattern {
    regex: regex::Regex,
    source: String,
    case_insensitive: bool,
    color: Color,
}

impl ColoredPattern {
    /// The text the pattern was compiled from.
    pub closed spec fn spec_source(&self) -> Seq<char> {
        self.source@
    }

    /// Whether the pattern ignores case.
    pub closed spec fn spec_case_insensitive(&self) -> bool {
        self.case_insensitive
    }

    /// The color of the pattern's matches.
    pub closed spec fn spec_color(&self) -> Color {
        self.color
    }

    /// The text the pattern was compiled from.
    pub fn source(&self) -> (r: &str)
        ensures
            r@ == self.spec_source(),
    {
        self.source.as_str()
    }

    /// The color of the pattern's matches.
    pub fn color(&self) -> (r: Color)
        ensures
            r == self.spec_color(),
    {
        self.color
    }

    /// Whether the pattern ignores case.
    pub fn case_insensitive(&self) -> (r: bool)
        ensures
            r == self.spec_case_insensitive(),
    {
        self.case_insensitive
    }
}

/// Why a pattern list could not be compiled: the pattern that failed, and the
/// regex crate's description of the problem.
pub struct PatternError {
    pub pattern: String,
    pub message: String,
}

/// Relies on regex::RegexBuilder (`new`, `case_insensitive`, `build`): whether
/// the build succeeds depends on the pattern and the flag alone.
#[verifier::external_body]
fn build_regex(pattern: &str, case_insensitive: bool) -> (r: Result<regex::Regex, regex::Error>)
    ensures
        r.is_ok() == regex_compiles(pattern@, case_insensitive),
{
    regex::RegexBuilder::new(pattern).case_insensitive(case_insensitive).build()
}

/// Relies on regex::Error's `Display` impl, for the text of an error.
#[verifier::external_body]
fn error_message(e: &regex::Error) -> String {
    e.to_string()
}

/// Relies on regex::Regex::find_iter, with `Match::start` and `Match::end`: the
/// successive non-overlapping matches of the regex, which depend on the
/// pattern, the flag and the haystack alone; each match has
/// `start <= end`, and both are byte offsets into the haystack.
#[verifier::external_body]
fn find_spans(p: &ColoredPattern, line: &str) -> (r: Vec<(usize, usize)>)
    ensures
        r@ == regex_spans(p.spec_source(), p.spec_case_insensitive(), line@),
        forall|k: int|
            0 <= k < r@.len() ==> r@[k].0 <= #[trigger] r@[k].1 <= line.spec_bytes().len(),
{
    p.regex.find_iter(line).map(|m| (m.start(), m.end())).collect()
}

/// Compiles one pattern and gives it `color`.
pub fn compile_pattern(pattern: &str, case_insensitive: bool, color: Color) -> (r: Result<
    ColoredPattern,
    PatternError,
>)
    ensures
        r.is_ok() == regex_compiles(pattern@, case_insensitive),
        r matches Ok(p) ==> p.spec_source() == pattern@ && p.spec_case_insensitive()
            == case_insensitive && p.spec_color() == color,
        r matches Err(e) ==> e.pattern@ == pattern@,
{
    match build_regex(pattern, case_insensitive) {
        Ok(regex) => Ok(ColoredPattern { regex, source: pattern.to_owned(), case_insensitive, color }),
        Err(e) => Err(PatternError { pattern: pattern.to_owned(), message: error_message(&e) }),
    }
}

/// Compiles each pattern, case-insensitively unless `case_sensitive` holds, and
/// gives the pattern at position `i` the palette color for `i`.
///
/// Fails on the first pattern that does not compile, naming it; then no
/// pattern is returned.
pub fn assign_color_to_pattern(patterns: &Vec<String>, case_sensitive: bool) -> (r: Result<
    Vec<ColoredPattern>,
    PatternError,
>)
    ensures
        r.is_ok() <==> forall|i: int|
            0 <= i < patterns@.len() ==> regex_compiles(#[trigger] patterns@[i]@, !case_sensitive),
        r matches Ok(ps) ==> ps@.len() == patterns@.len() && forall|i: int|
            0 <= i < ps@.len() ==> (#[trigger] ps@[i]).spec_source() == patterns@[i]@
                && ps@[i].spec_case_insensitive() == !case_sensitive && ps@[i].spec_color()
                == palette_color(i),
        r matches Err(e) ==> exists|k: int|
            0 <= k < patterns@.len() && !regex_compiles(#[trigger] patterns@[k]@, !case_sensitive)
                && (forall|j: int| 0 <= j < k ==> regex_compiles(patterns@[j]@, !case_sensitive))
                && e.pattern@ == patterns@[k]@,
{
    let mut out: Vec<ColoredPattern> = Vec::new();
    let mut i: usize = 0;
    while i < patterns.len()
        invariant
            i <= patterns@.len(),
            out@.len() == i,
            forall|j: int| 0 <= j < i ==> regex_compiles(#[trigger] patterns@[j]@, !case_sensitive),
            forall|j: int|
                0 <= j < i ==> (#[trigger] out@[j]).spec_source() == patterns@[j]@
                    && out@[j].spec_case_insensitive() == !case_sensitive && out@[j].spec_color()
                    == palette_color(j),
        decreases patterns@.len() - i,
    {
        let color = color_for_index(i);
        match compile_pattern(patterns[i].as_str(), !case_sensitive, color) {
            Ok(p) => {
                out.push(p);
            },
            Err(e) => {
                return Err(e);
            },
        }
        i = i + 1;
    }
    Ok(out)
}

/// The matches of pattern `p` in `line`, in the order the regex finds them.
pub open spec fn pattern_matches(p: ColoredPattern, line: Seq<char>) -> Seq<Match> {
    regex_spans(p.spec_source(), p.spec_case_insensitive(), line).map_values(
        |s: (usize, usize)| Match { start: s.0, end: s.1, color: p.spec_color() },
    )
}

/// The matches of every pattern of `ps` in `line`: those of the first pattern,
/// then those of the second, and so on.
pub open spec fn collected_matches(ps: Seq<ColoredPattern>, line: Seq<char>) -> Seq<Match>
    decreases ps.len(),
{
    if ps.len() == 0 {
        Seq::empty()
    } else {
        collected_matches(ps.drop_last(), line) + pattern_matches(ps.last(), line)
    }
}

/// Works out what to write for `line`: every pattern is matched against the
/// whole line, and the matches, in pattern order, decide the segments as
/// `plan_line` describes.
pub fn apply_color(line: &str, patterns: &Vec<ColoredPattern>, whole_line: bool, background: bool) -> (r:
    LineOutput)
    ensures
        (r.matched, r.segments@) == line_plan(
            line.spec_bytes().len() as usize,
            collected_matches(patterns@, line@),
            whole_line,
            background,
        ),
        all_within(collected_matches(patterns@, line@), line.spec_bytes().len() as int),
        !whole_line ==> concat_slices(line.spec_bytes(), r.segments@) == line.spec_bytes(),
{
    let mut matches: Vec<Match> = Vec::new();
    let mut i: usize = 0;
    while i < patterns.len()
        invariant
            i <= patterns@.len(),
            matches@ == collected_matches(patterns@.subrange(0, i as int), line@),
            all_within(matches@, line.spec_bytes().len() as int),
        decreases patterns@.len() - i,
    {
        let p = &patterns[i];
        let spans = find_spans(p, line);
        let color = p.color();
        let mut j: usize = 0;
        while j < spans.len()
            invariant
                j <= spans@.len(),
                spans@ == regex_spans(p.spec_source(), p.spec_case_insensitive(), line@),
                forall|k: int|
                    0 <= k < spans@.len() ==> spans@[k].0 <= #[trigger] spans@[k].1
                        <= line.spec_bytes().len(),
                all_within(matches@, line.spec_bytes().len() as int),
                color == p.spec_color(),
                matches@ == collected_matches(patterns@.subrange(0, i as int), line@)
                    + pattern_matches(*p, line@).subrange(0, j as int),
            decreases spans@.len() - j,
        {
            let (start, end) = spans[j];
            proof {
                assert(spans@[j as int].0 <= spans@[j as int].1 <= line.spec_bytes().len());
            }
            let ghost before = matches@;
            matches.push(Match { start, end, color });
            proof {
                assert forall|k: int| 0 <= k < matches@.len() implies matches@[k].start
                    <= #[trigger] matches@[k].end <= line.spec_bytes().len() by {
                    if k < before.len() {
                        assert(matches@[k] == before[k]);
                    }
                }
            }
            proof {
                assert(pattern_matches(*p, line@).subrange(0, j + 1) =~= pattern_matches(
                    *p,
                    line@,
                ).subrange(0, j as int).push(Match { start, end, color }));
                vstd::seq_lib::lemma_concat_associative(
                    collected_matches(patterns@.subrange(0, i as int), line@),
                    pattern_matches(*p, line@).subrange(0, j as int),
                    seq![Match { start, end, color }],
                );
            }
            j = j + 1;
        }
        proof {
            let next = patterns@.subrange(0, i + 1);
            assert(next.drop_last() =~= patterns@.subrange(0, i as int));
            assert(next.last() == *p);
            assert(pattern_matches(*p, line@).subrange(0, j as int) =~= pattern_matches(*p, line@));
        }
        i = i + 1;
    }
    proof {
        assert(patterns@.subrange(0, patterns@.len() as int) =~= patterns@);
    }
    let line_len: usize = line.as_bytes().len();
    proof {
        lemma_span_mode_round_trip(line.spec_bytes(), matches@, background);
    }
    plan_line(line_len, &matches, whole_line, background)
}

} // verus!
