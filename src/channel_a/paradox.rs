//! Paradox detection: a fixed, ordered list of case-insensitive patterns for
//! self-referential constructions, matched against the raw proposal text.

use vstd::prelude::*;

use vstd::utf8::encode_utf8;

use crate::channel_a::canonicalize::{lower_of, lowercase_chars, string_from_chars};

verus! {

/// Number of paradox patterns.
pub const PATTERN_COUNT: usize = 6;

/// Source of the `i`-th paradox pattern.
pub open spec fn paradox_pattern(i: int) -> Seq<char> {
    if i == 0 {
        // biconditional self-negation
        r"(?i)(this proposal|the motion|this rule|this amendment).*(passes|fails|is true|is false|succeeds|is rejected)\s+(iff|if and only if)\s+.*(fails|passes|is false|is true|is rejected|succeeds)"@
    } else if i == 1 {
        // liar paradox
        r"(?i)(this rule|this statement|the following statement|this proposal)\s+(is|are)\s+false"@
    } else if i == 2 {
        // conditional self-negation
        r"(?i)if\s+(this|it).*(true|passes|succeeds).*then.*(false|fails|is rejected)"@
    } else if i == 3 {
        // negation loop
        r"(?i)(this|it).*(passes|succeeds|is approved)\s+(only if|unless)\s+.*(doesn't|does not|doesn't|not)\s*(pass|succeed|approved)"@
    } else if i == 4 {
        // self-contradictory definition
        r"(?i)(define|let|set)\s+(\w+)\s+(as|to be|equal to|=)\s+(not|the opposite of|the negation of)\s+\2"@
    } else {
        // Russell's paradox
        r"(?i)(set|collection|group)\s+of\s+(all)?\s*(proposals?|rules?|statements?)\s+that\s+(don't|do not|doesn't)\s+(include|contain|reference)\s+(themselves|itself)"@
    }
}

fn pattern_source(i: usize) -> (r: &'static str)
    requires
        i < PATTERN_COUNT,
    ensures
        r@ == paradox_pattern(i as int),
{
    if i == 0 {
        r"(?i)(this proposal|the motion|this rule|this amendment).*(passes|fails|is true|is false|succeeds|is rejected)\s+(iff|if and only if)\s+.*(fails|passes|is false|is true|is rejected|succeeds)"
    } else if i == 1 {
        r"(?i)(this rule|this statement|the following statement|this proposal)\s+(is|are)\s+false"
    } else if i == 2 {
        r"(?i)if\s+(this|it).*(true|passes|succeeds).*then.*(false|fails|is rejected)"
    } else if i == 3 {
        r"(?i)(this|it).*(passes|succeeds|is approved)\s+(only if|unless)\s+.*(doesn't|does not|doesn't|not)\s*(pass|succeed|approved)"
    } else if i == 4 {
        r"(?i)(define|let|set)\s+(\w+)\s+(as|to be|equal to|=)\s+(not|the opposite of|the negation of)\s+\2"
    } else {
        r"(?i)(set|collection|group)\s+of\s+(all)?\s*(proposals?|rules?|statements?)\s+that\s+(don't|do not|doesn't)\s+(include|contain|reference)\s+(themselves|itself)"
    }
}

/// The regex dialect has no backreferences, so the self-contradictory definition is
/// searched for with its part before the repeated name; a candidate counts where
/// the text after it starts with the defined name (group 2), ignoring case.
pub open spec fn definition_prefix() -> Seq<char> {
    r"(?i)(define|let|set)\s+(\w+)\s+(as|to be|equal to|=)\s+(not|the opposite of|the negation of)\s+"@
}

fn definition_prefix_source() -> (r: &'static str)
    ensures
        r@ == definition_prefix(),
{
    r"(?i)(define|let|set)\s+(\w+)\s+(as|to be|equal to|=)\s+(not|the opposite of|the negation of)\s+"
}

/// Index of the self-contradictory definition pattern.
pub const DEFINITION_PATTERN: usize = 4;

/// The regex that the detector compiles for the `i`-th pattern.
pub open spec fn detector_pattern(i: int) -> Seq<char> {
    if i == DEFINITION_PATTERN {
        definition_prefix()
    } else {
        paradox_pattern(i)
    }
}

fn detector_source(i: usize) -> (r: &'static str)
    requires
        i < PATTERN_COUNT,
    ensures
        r@ == detector_pattern(i as int),
{
    if i == DEFINITION_PATTERN {
        definition_prefix_source()
    } else {
        pattern_source(i)
    }
}

/// A compiled `regex::Regex`, opaque here.
#[verifier::external_type_specification]
#[verifier::external_body]
pub struct ExRegex(regex::Regex);

/// Whether `regex::Regex::new` accepts a pattern.
pub uninterp spec fn regex_accepts(pattern: Seq<char>) -> bool;

/// The text of the leftmost-first match of a pattern in a haystack, or `None`
/// where it matches nowhere.
pub uninterp spec fn regex_find(pattern: Seq<char>, haystack: Seq<char>) -> Option<Seq<char>>;

/// A compiled pattern together with its source.
pub struct Pattern {
    source: String,
    regex: regex::Regex,
}

impl Pattern {
    /// The pattern's source text.
    pub closed spec fn source(&self) -> Seq<char> {
        self.source@
    }
}

/// Relies on `regex::Regex::new`: whether a pattern compiles depends on the pattern
/// alone.
#[verifier::external_body]
fn compile_regex(pattern: &str) -> (r: Option<regex::Regex>)
    ensures
        r is Some <==> regex_accepts(pattern@),
{
    regex::Regex::new(pattern).ok()
}

/// Relies on `regex::Regex::find`: the leftmost-first match, if there is one; its
/// text is handed back.
#[verifier::external_body]
fn pattern_find(p: &Pattern, haystack: &str) -> (r: Option<String>)
    ensures
        match r {
            Some(m) => regex_find(p.source(), haystack@) == Some(m@),
            None => regex_find(p.source(), haystack@) is None,
        },
{
    p.regex.find(haystack).map(|m| m.as_str().to_string())
}

/// For a search from byte offset `from`: the leftmost match of the definition
/// prefix that starts at or after `from`, as its start offset, the defined name
/// (group 2), the matched text, and the text after the match.
pub uninterp spec fn regex_candidate_from(pattern: Seq<char>, haystack: Seq<char>, from: int) -> Option<
    (int, Seq<char>, Seq<char>, Seq<char>),
>;

/// Relies on `regex::Regex::captures_at`: the leftmost match that starts at or after
/// `from` (which may not exceed the haystack's length), with group 2, the match
/// text, and the haystack after the match. A match of the definition prefix is
/// never empty and always has group 2.
#[verifier::external_body]
fn pattern_candidate_at(p: &Pattern, haystack: &str, from: usize) -> (r: Option<
    (usize, String, String, String),
>)
    requires
        p.source() == definition_prefix(),
        from <= encode_utf8(haystack@).len(),
    ensures
        match r {
            Some(c) => {
                &&& regex_candidate_from(p.source(), haystack@, from as int) == Some(
                    (c.0 as int, c.1@, c.2@, c.3@),
                )
                &&& from <= c.0 < encode_utf8(haystack@).len()
            },
            None => regex_candidate_from(p.source(), haystack@, from as int) is None,
        },
{
    p.regex.captures_at(haystack, from).map(|c| {
        let m = c.get(0).unwrap();
        (m.start(), c[2].to_string(), m.as_str().to_string(), haystack[m.end()..].to_string())
    })
}

/// Relies on `str::chars`: the characters of the string, in order.
#[verifier::external_body]
fn chars_of(s: &str) -> (r: Vec<char>)
    ensures
        r@ == s@,
{
    s.chars().collect()
}

/// The defined name occurs again at the start of `rest`, ignoring case.
pub open spec fn name_repeats(name: Seq<char>, rest: Seq<char>) -> bool {
    name.len() <= rest.len() && lower_of(name) == lower_of(rest.take(name.len() as int))
}

/// The text of the first self-contradictory definition whose candidate starts at or
/// after byte offset `from`.
pub open spec fn definition_match_from(text: Seq<char>, from: int) -> Option<Seq<char>>
    decreases encode_utf8(text).len() - from,
{
    if from < 0 || from > encode_utf8(text).len() {
        None
    } else {
        match regex_candidate_from(definition_prefix(), text, from) {
            None => None,
            Some(c) => if !(from <= c.0 < encode_utf8(text).len()) {
                None
            } else if name_repeats(c.1, c.3) {
                Some(c.2 + c.3.take(c.1.len() as int))
            } else {
                definition_match_from(text, c.0 + 1)
            },
        }
    }
}

fn chars_equal(a: &Vec<char>, b: &Vec<char>) -> (r: bool)
    ensures
        r == (a@ == b@),
{
    if a.len() != b.len() {
        return false;
    }
    let mut i: usize = 0;
    while i < a.len()
        invariant
            a@.len() == b@.len(),
            i <= a@.len(),
            forall|k: int| 0 <= k < i ==> a@[k] == b@[k],
        decreases a@.len() - i,
    {
        if a[i] != b[i] {
            assert(a@[i as int] != b@[i as int]);
            return false;
        }
        i = i + 1;
    }
    assert(a@ =~= b@);
    true
}

/// Given the defined name of a candidate and the text after it: the start of that
/// text when it repeats the name, ignoring case, else `None`.
pub fn repeated_name(name: &String, rest: &String) -> (r: Option<String>)
    ensures
        r is Some <==> name_repeats(name@, rest@),
        r matches Some(t) ==> t@ == rest@.take(name@.len() as int),
{
    let nc = chars_of(name.as_str());
    let rc = chars_of(rest.as_str());
    if nc.len() > rc.len() {
        return None;
    }
    let mut prefix: Vec<char> = Vec::new();
    let mut i: usize = 0;
    while i < nc.len()
        invariant
            nc@ == name@,
            rc@ == rest@,
            nc@.len() <= rc@.len(),
            i <= nc@.len(),
            prefix@ == rc@.take(i as int),
        decreases nc@.len() - i,
    {
        prefix.push(rc[i]);
        assert(rc@.take(i + 1) =~= rc@.take(i as int).push(rc@[i as int]));
        i = i + 1;
    }
    let candidate = string_from_chars(&prefix);
    let a = lowercase_chars(name.as_str());
    let b = lowercase_chars(candidate.as_str());
    if chars_equal(&a, &b) {
        Some(candidate)
    } else {
        None
    }
}

fn compile_pattern(source: &str) -> (r: Option<Pattern>)
    ensures
        r is Some <==> regex_accepts(source@),
        r matches Some(p) ==> p.source() == source@,
{
    match compile_regex(source) {
        Some(regex) => Some(Pattern { source: source.to_owned(), regex }),
        None => None,
    }
}

/// Whether the `i`-th pattern compiles and matches the text; for the definition
/// pattern, some candidate must be followed by its defined name.
pub open spec fn pattern_hits(i: int, text: Seq<char>) -> bool {
    &&& regex_accepts(detector_pattern(i))
    &&& if i == DEFINITION_PATTERN {
        definition_match_from(text, 0) is Some
    } else {
        regex_find(paradox_pattern(i), text) is Some
    }
}

/// The text that the `i`-th pattern matches in a text it hits.
pub open spec fn pattern_match_text(i: int, text: Seq<char>) -> Seq<char> {
    if i == DEFINITION_PATTERN {
        definition_match_from(text, 0)->0
    } else {
        regex_find(paradox_pattern(i), text)->0
    }
}

/// Whether some paradox pattern matches anywhere in the text.
pub open spec fn paradox_in(text: Seq<char>) -> bool {
    exists|i: int| 0 <= i < PATTERN_COUNT && #[trigger] pattern_hits(i, text)
}

/// Index and matched text of each pattern among the first `n` that matches, in
/// pattern order.
pub open spec fn paradox_matches_upto(n: int, text: Seq<char>) -> Seq<(usize, Seq<char>)>
    decreases n,
{
    if n <= 0 {
        Seq::empty()
    } else if pattern_hits(n - 1, text) {
        paradox_matches_upto(n - 1, text).push(
            ((n - 1) as usize, pattern_match_text(n - 1, text)),
        )
    } else {
        paradox_matches_upto(n - 1, text)
    }
}

/// Index and matched text of every matching pattern, in pattern order.
pub open spec fn paradox_matches(text: Seq<char>) -> Seq<(usize, Seq<char>)> {
    paradox_matches_upto(PATTERN_COUNT as int, text)
}

pub open spec fn match_views(m: Seq<(usize, String)>) -> Seq<(usize, Seq<char>)> {
    Seq::new(m.len(), |k: int| (m[k].0, m[k].1@))
}

/// The paradox patterns, compiled once.
pub struct ParadoxDetector {
    patterns: Vec<Option<Pattern>>,
}

impl ParadoxDetector {
    /// Each pattern is compiled from its source, or absent where it does not compile.
    pub closed spec fn wf(&self) -> bool {
        &&& self.patterns@.len() == PATTERN_COUNT
        &&& forall|i: int|
            0 <= i < PATTERN_COUNT ==> (#[trigger] self.patterns@[i] is Some <==> regex_accepts(
                detector_pattern(i),
            ))
        &&& forall|i: int|
            0 <= i < PATTERN_COUNT ==> (#[trigger] self.patterns@[i] matches Some(p)
                ==> p.source() == detector_pattern(i))
    }

    /// Compiles the paradox patterns.
    pub fn new() -> (r: Self)
        ensures
            r.wf(),
    {
        let mut patterns: Vec<Option<Pattern>> = Vec::new();
        let mut i: usize = 0;
        while i < PATTERN_COUNT
            invariant
                i <= PATTERN_COUNT,
                patterns@.len() == i,
                forall|k: int|
                    0 <= k < i ==> (#[trigger] patterns@[k] is Some <==> regex_accepts(
                        detector_pattern(k),
                    )),
                forall|k: int|
                    0 <= k < i ==> (#[trigger] patterns@[k] matches Some(p) ==> p.source()
                        == detector_pattern(k)),
            decreases PATTERN_COUNT - i,
        {
            patterns.push(compile_pattern(detector_source(i)));
            i = i + 1;
        }
        ParadoxDetector { patterns }
    }

    /// The first self-contradictory definition in the text: every candidate start is
    /// tried in turn, overlapping ones included.
    fn definition_match(&self, p: &Pattern, text: &str) -> (r: Option<String>)
        requires
            p.source() == definition_prefix(),
        ensures
            r matches Some(m) ==> definition_match_from(text@, 0) == Some(m@),
            r is None ==> definition_match_from(text@, 0) is None,
    {
        let n = text.as_bytes().len();
        let mut from: usize = 0;
        loop
            invariant
                p.source() == definition_prefix(),
                n == encode_utf8(text@).len(),
                from <= n,
                definition_match_from(text@, 0) == definition_match_from(text@, from as int),
            decreases n - from,
        {
            match pattern_candidate_at(p, text, from) {
                None => {
                    return None;
                },
                Some((start, name, matched, rest)) => {
                    match repeated_name(&name, &rest) {
                        Some(t) => {
                            let whole = matched.concat(t.as_str());
                            return Some(whole);
                        },
                        None => {
                            from = start + 1;
                        },
                    }
                },
            }
        }
    }

    /// Whether the `i`-th pattern hits the text, and the text it matches.
    fn hit(&self, i: usize, text: &str) -> (r: Option<String>)
        requires
            self.wf(),
            i < PATTERN_COUNT,
        ensures
            r is Some <==> pattern_hits(i as int, text@),
            r matches Some(m) ==> m@ == pattern_match_text(i as int, text@),
    {
        assert(self.patterns@[i as int] is Some <==> regex_accepts(detector_pattern(i as int)));
        match &self.patterns[i] {
            Some(p) => {
                assert(self.patterns@[i as int] matches Some(q) ==> q.source() == detector_pattern(i as int));
                if i == DEFINITION_PATTERN {
                    self.definition_match(p, text)
                } else {
                    pattern_find(p, text)
                }
            },
            None => None,
        }
    }

    /// Whether some pattern matches anywhere in the text.
    pub fn detect(&self, text: &str) -> (r: bool)
        requires
            self.wf(),
        ensures
            r == paradox_in(text@),
    {
        let mut i: usize = 0;
        while i < PATTERN_COUNT
            invariant
                self.wf(),
                i <= PATTERN_COUNT,
                forall|k: int| 0 <= k < i ==> !#[trigger] pattern_hits(k, text@),
            decreases PATTERN_COUNT - i,
        {
            if self.hit(i, text).is_some() {
                assert(pattern_hits(i as int, text@));
                return true;
            }
            i = i + 1;
        }
        false
    }

    /// Index and matched text of every matching pattern, in pattern order.
    pub fn find_matches(&self, text: &str) -> (r: Vec<(usize, String)>)
        requires
            self.wf(),
        ensures
            match_views(r@) == paradox_matches(text@),
    {
        let mut out: Vec<(usize, String)> = Vec::new();
        let mut i: usize = 0;
        while i < PATTERN_COUNT
            invariant
                self.wf(),
                i <= PATTERN_COUNT,
                match_views(out@) == paradox_matches_upto(i as int, text@),
            decreases PATTERN_COUNT - i,
        {
            match self.hit(i, text) {
                Some(m) => {
                    let ghost before = out@;
                    out.push((i, m));
                    assert(match_views(out@) =~= match_views(before).push(
                        (i, pattern_match_text(i as int, text@)),
                    ));
                },
                None => {},
            }
            i = i + 1;
        }
        out
    }
}

/// Whether some paradox pattern matches anywhere in the raw text. The patterns are
/// compiled for this call; a caller that checks many texts keeps one
/// `ParadoxDetector`, built once, and calls `detect` on it.
pub fn detect_paradox(text: &str) -> (r: bool)
    ensures
        r == paradox_in(text@),
{
    let detector = ParadoxDetector::new();
    detector.detect(text)
}

/// Sources of the paradox patterns, in order.
pub fn get_paradox_patterns() -> (r: Vec<String>)
    ensures
        r@.len() == PATTERN_COUNT,
        forall|i: int| 0 <= i < PATTERN_COUNT ==> #[trigger] r@[i]@ == paradox_pattern(i),
{
    let mut out: Vec<String> = Vec::new();
    let mut i: usize = 0;
    while i < PATTERN_COUNT
        invariant
            i <= PATTERN_COUNT,
            out@.len() == i,
            forall|k: int| 0 <= k < i ==> #[trigger] out@[k]@ == paradox_pattern(k),
        decreases PATTERN_COUNT - i,
    {
        out.push(pattern_source(i).to_owned());
        i = i + 1;
    }
    out
}

/// Index and matched text of every paradox pattern that matches the raw text, in
/// pattern order.
pub fn find_paradox_matches(text: &str) -> (r: Vec<(usize, String)>)
    ensures
        match_views(r@) == paradox_matches(text@),
{
    let detector = ParadoxDetector::new();
    detector.find_matches(text)
}

} // verus!
