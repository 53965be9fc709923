//! Scanning template text for `{{ ... }}` placeholders and the compiled
//! template that records them.

use vstd::prelude::*;
use vstd::string::StrSliceExecFns;

verus! {

/// Whitespace stripped from the ends of a placeholder's inner expression:
/// the Unicode White_Space set.
pub open spec fn is_ws(c: char) -> bool {
    ||| c == ' '
    ||| c == '\t'
    ||| c == '\n'
    ||| c == '\r'
    ||| c == '\u{000B}'
    ||| c == '\u{000C}'
    ||| c == '\u{0085}'
    ||| c == '\u{00A0}'
    ||| c == '\u{1680}'
    ||| (0x2000 <= (c as u32) && (c as u32) <= 0x200A)
    ||| c == '\u{2028}'
    ||| c == '\u{2029}'
    ||| c == '\u{202F}'
    ||| c == '\u{205F}'
    ||| c == '\u{3000}'
}

/// Text without its leading whitespace.
pub open spec fn spec_ltrim(s: Seq<char>) -> Seq<char>
    decreases s.len(),
{
    if s.len() > 0 && is_ws(s[0]) {
        spec_ltrim(s.drop_first())
    } else {
        s
    }
}

/// Text without its trailing whitespace.
pub open spec fn spec_rtrim(s: Seq<char>) -> Seq<char>
    decreases s.len(),
{
    if s.len() > 0 && is_ws(s.last()) {
        spec_rtrim(s.drop_last())
    } else {
        s
    }
}

/// Text without leading or trailing whitespace.
pub open spec fn spec_trim(s: Seq<char>) -> Seq<char> {
    spec_rtrim(spec_ltrim(s))
}

/// Two adjacent copies of `c` stand at position `i`.
pub open spec fn is_pair_at(s: Seq<char>, i: int, c: char) -> bool {
    0 <= i && i + 2 <= s.len() && s[i] == c && s[i + 1] == c
}

/// The first position at or after `from` holding two adjacent copies of
/// `c`, or -1 when there is none.
pub open spec fn spec_find_pair(s: Seq<char>, from: int, c: char) -> int
    decreases s.len() - from,
{
    if from < 0 || from + 2 > s.len() {
        -1
    } else if is_pair_at(s, from, c) {
        from
    } else {
        spec_find_pair(s, from + 1, c)
    }
}

/// What `spec_find_pair` returns: the first pair position, or -1 when no
/// pair follows.
pub proof fn lemma_find_pair(s: Seq<char>, from: int, c: char)
    requires
        0 <= from,
    ensures
        ({
            let i = spec_find_pair(s, from, c);
            &&& i == -1 || (from <= i && is_pair_at(s, i, c))
            &&& i == -1 ==> forall|j: int| from <= j ==> !is_pair_at(s, j, c)
            &&& i >= 0 ==> forall|j: int| from <= j < i ==> !is_pair_at(s, j, c)
        }),
    decreases s.len() - from,
{
    if from + 2 > s.len() {
        assert(forall|j: int| from <= j ==> !is_pair_at(s, j, c));
    } else if is_pair_at(s, from, c) {
    } else {
        lemma_find_pair(s, from + 1, c);
    }
}

/// One placeholder occurrence: its recorded path expression and the span
/// of the whole `{{ ... }}` text in the template source.
pub ghost struct SpecMatch {
    pub name: Seq<char>,
    pub start: int,
    pub end: int,
}

/// Every placeholder of the text, scanning left to right from `from`: an
/// opening `{{` is closed by the first `}}` after it, the inner text is
/// recorded whitespace-trimmed, and scanning resumes past the `}}`.
pub open spec fn spec_scan(s: Seq<char>, from: int) -> Seq<SpecMatch>
    decreases s.len() - from,
    via spec_scan_dec
{
    let i = spec_find_pair(s, from, '{');
    if i < 0 {
        Seq::<SpecMatch>::empty()
    } else {
        let j = spec_find_pair(s, i + 2, '}');
        if j < 0 {
            Seq::<SpecMatch>::empty()
        } else {
            seq![
                SpecMatch { name: spec_trim(s.subrange(i + 2, j)), start: i, end: j + 2 },
            ] + spec_scan(s, j + 2)
        }
    }
}

#[via_fn]
proof fn spec_scan_dec(s: Seq<char>, from: int) {
    if from >= 0 {
        lemma_find_pair(s, from, '{');
        let i = spec_find_pair(s, from, '{');
        if i >= 0 {
            lemma_find_pair(s, i + 2, '}');
        }
    }
}

/// One placeholder occurrence in executable form.
#[derive(Clone, Debug, PartialEq)]
pub struct Match {
    name: String,
    start: usize,
    end: usize,
}

impl View for Match {
    type V = SpecMatch;

    closed spec fn view(&self) -> SpecMatch {
        SpecMatch { name: self.name@, start: self.start as int, end: self.end as int }
    }
}

impl Match {
    /// A match record from its parts.
    pub fn new(name: String, start: usize, end: usize) -> (m: Match)
        ensures
            m@ == (SpecMatch { name: name@, start: start as int, end: end as int }),
    {
        Match { name, start, end }
    }
}

/// The models of a sequence of match records.
pub open spec fn matches_view(s: Seq<Match>) -> Seq<SpecMatch> {
    Seq::new(
        s.len(),
        |i: int|
            if 0 <= i < s.len() {
                s[i]@
            } else {
                SpecMatch { name: Seq::<char>::empty(), start: 0, end: 0 }
            },
    )
}

/// A span lies inside text of the given length and is non-empty.
pub open spec fn match_in_bounds(m: SpecMatch, len: int) -> bool {
    0 <= m.start && m.start < m.end && m.end <= len
}

/// The model of a compiled template: its source text and its placeholder
/// matches in scanning order.
pub ghost struct TemplateModel {
    pub src: Seq<char>,
    pub matches: Seq<SpecMatch>,
}

/// A compiled template: the original source text plus every placeholder
/// match found in it, reusable across many renders.
#[derive(Clone, Debug, PartialEq)]
pub struct Template {
    src: String,
    matches: Vec<Match>,
}

impl View for Template {
    type V = TemplateModel;

    closed spec fn view(&self) -> TemplateModel {
        TemplateModel { src: self.src@, matches: matches_view(self.matches@) }
    }
}

impl Template {
    /// Every recorded span lies inside the source text.
    pub open spec fn wf(&self) -> bool {
        forall|i: int|
            0 <= i < self@.matches.len() ==> match_in_bounds(
                #[trigger] self@.matches[i],
                self@.src.len() as int,
            )
    }

    /// A template from its source text and match records.
    pub fn new(template: &str, matches: Vec<Match>) -> (t: Template)
        requires
            forall|i: int|
                0 <= i < matches@.len() ==> match_in_bounds(
                    #[trigger] matches@[i]@,
                    template@.len() as int,
                ),
        ensures
            t@.src == template@,
            t@.matches == matches_view(matches@),
            t.wf(),
    {
        let t = Template { src: template.to_owned(), matches };
        proof {
            assert(t@.matches =~= matches_view(t.matches@));
        }
        t
    }

    /// The source text the template was parsed from.
    pub fn source(&self) -> (s: &str)
        ensures
            s@ == self@.src,
    {
        self.src.as_str()
    }

    /// How many placeholder matches were recorded.
    pub fn match_count(&self) -> (n: usize)
        ensures
            n == self@.matches.len(),
    {
        self.matches.len()
    }

    /// A match's recorded path expression.
    pub(crate) fn match_name(&self, i: usize) -> (s: &str)
        requires
            i < self@.matches.len(),
        ensures
            s@ == self@.matches[i as int].name,
    {
        self.matches[i].name.as_str()
    }

    /// A match's span text, sliced from the original source.
    pub(crate) fn match_text(&self, i: usize) -> (s: &str)
        requires
            i < self@.matches.len(),
            self.wf(),
        ensures
            s@ == self@.src.subrange(self@.matches[i as int].start, self@.matches[i as int].end),
            s@.len() > 0,
    {
        proof {
            assert(self@.matches[i as int] == self.matches@[i as int]@);
        }
        self.src.as_str().substring_char(self.matches[i].start, self.matches[i].end)
    }
}

/// Whether a character counts as whitespace.
fn ws_char(c: char) -> (b: bool)
    ensures
        b == is_ws(c),
{
    c == ' ' || c == '\t' || c == '\n' || c == '\r' || c == '\u{000B}' || c == '\u{000C}'
        || c == '\u{0085}' || c == '\u{00A0}' || c == '\u{1680}' || ((c as u32) >= 0x2000 && (c
        as u32) <= 0x200A) || c == '\u{2028}' || c == '\u{2029}' || c == '\u{202F}' || c
        == '\u{205F}' || c == '\u{3000}'
}

/// Dropping each of `a` leading all-whitespace characters in turn reaches
/// the suffix at `a`.
proof fn lemma_ltrim_index(s: Seq<char>, a: int)
    requires
        0 <= a <= s.len(),
        forall|j: int| 0 <= j < a ==> is_ws(s[j]),
        a < s.len() ==> !is_ws(s[a]),
    ensures
        spec_ltrim(s) == s.skip(a),
    decreases a,
{
    if a == 0 {
        assert(s.skip(0) =~= s);
    } else {
        assert(is_ws(s[0]));
        assert(forall|j: int| 0 <= j < a - 1 ==> is_ws(#[trigger] s.drop_first()[j]));
        assert(a - 1 < s.drop_first().len() ==> !is_ws(s.drop_first()[a - 1]));
        lemma_ltrim_index(s.drop_first(), a - 1);
        assert(s.drop_first().skip(a - 1) =~= s.skip(a));
    }
}

/// Dropping trailing all-whitespace characters in turn reaches the prefix
/// of length `b`.
proof fn lemma_rtrim_index(s: Seq<char>, b: int)
    requires
        0 <= b <= s.len(),
        forall|j: int| b <= j < s.len() ==> is_ws(s[j]),
        b > 0 ==> !is_ws(s[b - 1]),
    ensures
        spec_rtrim(s) == s.take(b),
    decreases s.len() - b,
{
    if b == s.len() {
        assert(s.take(b) =~= s);
        if s.len() > 0 {
            assert(!is_ws(s.last()));
        }
    } else {
        assert(is_ws(s.last()));
        assert(forall|j: int| b <= j < s.drop_last().len() ==> is_ws(#[trigger] s.drop_last()[j]));
        lemma_rtrim_index(s.drop_last(), b);
        assert(s.drop_last().take(b) =~= s.take(b));
    }
}

/// A copy of the text without leading or trailing whitespace.
pub fn trim_str(s: &str) -> (r: String)
    ensures
        r@ == spec_trim(s@),
{
    let n = s.unicode_len();
    let mut a: usize = 0;
    loop
        invariant
            n == s@.len(),
            0 <= a <= n,
            forall|j: int| 0 <= j < a ==> is_ws(s@[j]),
        ensures
            0 <= a <= n,
            forall|j: int| 0 <= j < a ==> is_ws(s@[j]),
            a < n ==> !is_ws(s@[a as int]),
        decreases n - a,
    {
        if a == n {
            break;
        }
        if !ws_char(s.get_char(a)) {
            break;
        }
        a += 1;
    }
    let mut b: usize = n;
    loop
        invariant
            n == s@.len(),
            a <= b <= n,
            forall|j: int| b <= j < n ==> is_ws(s@[j]),
        ensures
            a <= b <= n,
            forall|j: int| b <= j < n ==> is_ws(s@[j]),
            b > a ==> !is_ws(s@[b - 1]),
        decreases b,
    {
        if b == a {
            break;
        }
        if !ws_char(s.get_char(b - 1)) {
            break;
        }
        b -= 1;
    }
    let r = s.substring_char(a, b).to_owned();
    proof {
        lemma_ltrim_index(s@, a as int);
        let t = s@.skip(a as int);
        if b == a {
            assert(forall|j: int| 0 <= j < t.len() ==> is_ws(#[trigger] t[j]));
            lemma_rtrim_index(t, 0);
            assert(r@ =~= t.take(0));
        } else {
            assert(forall|j: int| b - a <= j < t.len() ==> is_ws(#[trigger] t[j]));
            lemma_rtrim_index(t, b - a);
            assert(r@ =~= t.take(b - a));
        }
    }
    r
}

/// The first position at or after `from` holding two adjacent copies of
/// `c`, if any.
fn find_pair(s: &str, from: usize, c: char) -> (r: Option<usize>)
    requires
        from <= s@.len(),
    ensures
        match r {
            Some(i) => from <= i && i + 2 <= s@.len() && spec_find_pair(s@, from as int, c)
                == i as int,
            None => spec_find_pair(s@, from as int, c) == -1,
        },
{
    let n = s.unicode_len();
    let mut i: usize = from;
    loop
        invariant
            n == s@.len(),
            from <= i <= n,
            spec_find_pair(s@, from as int, c) == spec_find_pair(s@, i as int, c),
        ensures
            n == s@.len(),
            from <= i,
            spec_find_pair(s@, from as int, c) == spec_find_pair(s@, i as int, c),
            i <= n,
            n - i >= 2 ==> is_pair_at(s@, i as int, c),
            n - i < 2 ==> spec_find_pair(s@, i as int, c) == -1,
        decreases n - i,
    {
        if n - i < 2 {
            break;
        }
        if s.get_char(i) == c && s.get_char(i + 1) == c {
            break;
        }
        proof {
            assert(!is_pair_at(s@, i as int, c));
            assert(spec_find_pair(s@, i as int, c) == spec_find_pair(s@, i as int + 1, c));
        }
        i += 1;
    }
    if n - i >= 2 {
        proof {
            assert(spec_find_pair(s@, i as int, c) == i as int);
        }
        Some(i)
    } else {
        None
    }
}

/// Every placeholder of the text, left to right, as executable match
/// records.
pub fn scan_matches(src: &str) -> (ms: Vec<Match>)
    ensures
        matches_view(ms@) == spec_scan(src@, 0),
        forall|i: int|
            0 <= i < ms@.len() ==> match_in_bounds(#[trigger] ms@[i]@, src@.len() as int),
{
    let n = src.unicode_len();
    let mut ms: Vec<Match> = Vec::new();
    let mut pos: usize = 0;
    loop
        invariant
            n == src@.len(),
            pos <= n,
            spec_scan(src@, 0) == matches_view(ms@) + spec_scan(src@, pos as int),
            forall|i: int|
                0 <= i < ms@.len() ==> match_in_bounds(#[trigger] ms@[i]@, src@.len() as int),
        ensures
            spec_scan(src@, pos as int) == Seq::<SpecMatch>::empty(),
            spec_scan(src@, 0) == matches_view(ms@) + spec_scan(src@, pos as int),
            forall|i: int|
                0 <= i < ms@.len() ==> match_in_bounds(#[trigger] ms@[i]@, src@.len() as int),
        decreases n - pos,
    {
        let io = find_pair(src, pos, '{');
        let i = match io {
            None => {
                proof {
                    assert(spec_scan(src@, pos as int) =~= Seq::<SpecMatch>::empty());
                }
                break;
            },
            Some(i) => i,
        };
        let jo = find_pair(src, i + 2, '}');
        let j = match jo {
            None => {
                proof {
                    assert(spec_scan(src@, pos as int) =~= Seq::<SpecMatch>::empty());
                }
                break;
            },
            Some(j) => j,
        };
        let inner = src.substring_char(i + 2, j);
        let name = trim_str(inner);
        let ghost old_ms = ms@;
        ms.push(Match { name, start: i, end: j + 2 });
        proof {
            let m = SpecMatch {
                name: spec_trim(src@.subrange(i as int + 2, j as int)),
                start: i as int,
                end: j as int + 2,
            };
            assert(ms@[old_ms.len() as int]@ == m);
            assert(matches_view(ms@) =~= matches_view(old_ms) + seq![m]);
            assert(spec_scan(src@, pos as int) == seq![m] + spec_scan(src@, j as int + 2));
            assert(matches_view(old_ms) + (seq![m] + spec_scan(src@, j as int + 2)) =~= (
            matches_view(old_ms) + seq![m]) + spec_scan(src@, j as int + 2));
        }
        pos = j + 2;
    }
    proof {
        assert(matches_view(ms@) + Seq::<SpecMatch>::empty() =~= matches_view(ms@));
    }
    ms
}

/// The names a scan records do not depend on the whitespace padding inside
/// the delimiters: all-whitespace text around an inner expression trims
/// away.
pub proof fn lemma_trim_padding(p: Seq<char>, s: Seq<char>, q: Seq<char>)
    requires
        forall|j: int| 0 <= j < p.len() ==> is_ws(#[trigger] p[j]),
        forall|j: int| 0 <= j < q.len() ==> is_ws(#[trigger] q[j]),
    ensures
        spec_trim(p + s + q) == spec_trim(s),
{
    lemma_ltrim_ws_prefix(p, s + q);
    assert(p + s + q =~= p + (s + q));
    lemma_ltrim_concat(s, q);
    if spec_ltrim(s).len() > 0 {
        lemma_rtrim_ws_suffix(spec_ltrim(s), q);
    } else {
        lemma_ltrim_all_ws(q);
        assert(spec_rtrim(Seq::<char>::empty()) == Seq::<char>::empty());
    }
}

/// An all-whitespace prefix trims away on the left.
proof fn lemma_ltrim_ws_prefix(p: Seq<char>, s: Seq<char>)
    requires
        forall|j: int| 0 <= j < p.len() ==> is_ws(#[trigger] p[j]),
    ensures
        spec_ltrim(p + s) == spec_ltrim(s),
    decreases p.len(),
{
    if p.len() == 0 {
        assert(p + s =~= s);
    } else {
        assert(is_ws((p + s)[0]));
        assert((p + s).drop_first() =~= p.drop_first() + s);
        assert(forall|j: int| 0 <= j < p.drop_first().len() ==> is_ws(#[trigger] p.drop_first()[j]));
        lemma_ltrim_ws_prefix(p.drop_first(), s);
    }
}

/// An all-whitespace suffix trims away on the right.
proof fn lemma_rtrim_ws_suffix(s: Seq<char>, q: Seq<char>)
    requires
        forall|j: int| 0 <= j < q.len() ==> is_ws(#[trigger] q[j]),
    ensures
        spec_rtrim(s + q) == spec_rtrim(s),
    decreases q.len(),
{
    if q.len() == 0 {
        assert(s + q =~= s);
    } else {
        assert(is_ws((s + q).last()));
        assert((s + q).drop_last() =~= s + q.drop_last());
        assert(forall|j: int| 0 <= j < q.drop_last().len() ==> is_ws(#[trigger] q.drop_last()[j]));
        lemma_rtrim_ws_suffix(s, q.drop_last());
    }
}

/// Left-trimming a concatenation stops inside the first part unless that
/// part is all whitespace.
proof fn lemma_ltrim_concat(s: Seq<char>, q: Seq<char>)
    ensures
        spec_ltrim(s).len() > 0 ==> spec_ltrim(s + q) == spec_ltrim(s) + q,
        spec_ltrim(s).len() == 0 ==> spec_ltrim(s + q) == spec_ltrim(q),
    decreases s.len(),
{
    if s.len() == 0 {
        assert(s + q =~= q);
    } else if is_ws(s[0]) {
        assert((s + q).drop_first() =~= s.drop_first() + q);
        lemma_ltrim_concat(s.drop_first(), q);
    } else {
        assert(spec_ltrim(s) == s);
        if s.len() + q.len() > 0 {
            assert((s + q)[0] == s[0]);
        }
        assert(spec_ltrim(s + q) == s + q);
    }
}

/// All-whitespace text left-trims to nothing.
proof fn lemma_ltrim_all_ws(q: Seq<char>)
    requires
        forall|j: int| 0 <= j < q.len() ==> is_ws(#[trigger] q[j]),
    ensures
        spec_ltrim(q) == Seq::<char>::empty(),
    decreases q.len(),
{
    if q.len() == 0 {
        assert(q =~= Seq::<char>::empty());
    } else {
        assert(forall|j: int| 0 <= j < q.drop_first().len() ==> is_ws(#[trigger] q.drop_first()[j]));
        lemma_ltrim_all_ws(q.drop_first());
    }
}

/// Parsing is deterministic: the match list is a function of the text
/// alone, so parsing the same text twice yields the same matches.
pub proof fn lemma_scan_deterministic(t1: Seq<char>, t2: Seq<char>)
    requires
        t1 == t2,
    ensures
        spec_scan(t1, 0) == spec_scan(t2, 0),
{
}

} // verus!
