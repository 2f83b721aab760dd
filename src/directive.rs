//! Extraction of suppression identifiers from the text of one source file.
use vstd::prelude::*;
use crate::text::{
    chars_of, erase, erase_chars, insert_sorted, lemma_split_on_free_of_sep, lemma_split_on_nonempty, prefix, split_chars,
    split_on, strictly_sorted, string_of, strip_marks, strip_marks_chars, views,
};

verus! {

/// The comment text that opens a suppression directive.
pub const MARKER: &'static str = "rubocop:disable";

/// The directive: the marker, then any number of groups of one space and a
/// run that reaches a `/` and the non-space characters after it.
pub const DIRECTIVE_PATTERN: &'static str = "rubocop:disable( (.)*/[^ ]*)*";

/// regex's compiled pattern, carried opaquely by `DirectiveMatcher`.
#[verifier::external_type_specification]
#[verifier::external_body]
pub struct ExRegex(regex::Regex);

/// The position of the first occurrence of `p` in `s` at or after `from`.
pub open spec fn first_index(s: Seq<char>, p: Seq<char>, from: int) -> Option<int>
    decreases s.len() - from,
{
    if from < 0 || from + p.len() > s.len() {
        None
    } else if s.subrange(from, from + p.len()) == p {
        Some(from)
    } else if from >= s.len() {
        None
    } else {
        first_index(s, p, from + 1)
    }
}

/// The position of the last `/` in `s`, or -1 where there is none.
pub open spec fn last_slash(s: Seq<char>) -> int
    decreases s.len(),
{
    if s.len() == 0 {
        -1
    } else if s.last() == '/' {
        s.len() - 1
    } else {
        last_slash(s.drop_last())
    }
}

/// The length of the run of non-space characters that opens `s`.
pub open spec fn nonspace_run(s: Seq<char>) -> nat
    decreases s.len(),
{
    if s.len() == 0 || s[0] == ' ' {
        0
    } else {
        1 + nonspace_run(s.drop_first())
    }
}

/// The text that the directive pattern matches in a line that holds the
/// marker: the match starts at the first marker; the greedy groups then reach
/// the last `/` of the line, when a space follows the marker and a `/` comes
/// after it, and the non-space run that follows that `/`.
pub open spec fn directive_span(line: Seq<char>) -> Seq<char> {
    let m = MARKER@;
    let rest = line.skip(first_index(line, m, 0)->0 + m.len());
    let k = last_slash(rest);
    if rest.len() > 0 && rest[0] == ' ' && k > 0 {
        m + rest.take(k + 1 + nonspace_run(rest.skip(k + 1)))
    } else {
        m
    }
}

/// The identifiers that one line names: none without the marker; else the
/// directive's text with the marker, comment marks and spaces taken out, split
/// at each comma.
pub open spec fn line_identifiers(line: Seq<char>) -> Seq<Seq<char>> {
    if first_index(line, MARKER@, 0) is Some {
        split_on(strip_marks(erase(directive_span(line), MARKER@)), ',')
    } else {
        Seq::empty()
    }
}

/// `s` without one carriage return at its end.
pub open spec fn strip_cr(s: Seq<char>) -> Seq<char> {
    if s.len() > 0 && s.last() == '\r' {
        s.drop_last()
    } else {
        s
    }
}

/// The lines of `s`, as `str::lines` gives them: split at each `\n`, a `\r`
/// before a `\n` dropped, and no empty line after a final `\n`.
pub open spec fn lines_of(s: Seq<char>) -> Seq<Seq<char>> {
    let p = split_on(s, '\n');
    let n = if p.last().len() == 0 { p.len() - 1 } else { p.len() as int };
    Seq::new(n as nat, |i: int| if i < p.len() - 1 { strip_cr(p[i]) } else { p[i] })
}

/// Every identifier that some line of `ls` names.
pub open spec fn identifiers_of_lines(ls: Seq<Seq<char>>) -> Set<Seq<char>>
    decreases ls.len(),
{
    if ls.len() == 0 {
        Set::empty()
    } else {
        identifiers_of_lines(ls.drop_last()).union(line_identifiers(ls.last()).to_set())
    }
}

/// Every identifier that the suppression directives of `content` name.
pub open spec fn directive_set(content: Seq<char>) -> Set<Seq<char>> {
    identifiers_of_lines(lines_of(content))
}

/// The contents of each string of a list.
pub open spec fn string_views(s: Seq<String>) -> Seq<Seq<char>> {
    s.map_values(|t: String| t@)
}

/// A compiled directive pattern.
pub struct DirectiveMatcher {
    re: regex::Regex,
    pattern: Ghost<Seq<char>>,
}

/// Relies on regex::Regex::new: on success, a regex compiled from `pat`. Its
/// result depends on the pattern alone, and the directive pattern is valid and
/// far below the default size limit, so it compiles.
#[verifier::external_body]
fn compile(pat: &str) -> (r: Option<DirectiveMatcher>)
    ensures
        r matches Some(m) ==> m.pattern@ == pat@,
        pat@ == DIRECTIVE_PATTERN@ ==> r is Some,
{
    regex::Regex::new(pat).ok().map(|re| DirectiveMatcher { re, pattern: Ghost(pat@) })
}

/// Relies on regex::Regex::find, which returns the leftmost-first match. The
/// directive pattern opens with the marker, so a match exists exactly where the
/// marker occurs and starts at its first occurrence; from there the preferred
/// path takes one group whose `(.)*` runs to the last `/` of the line (when a
/// space follows the marker and a `/` comes after it) and whose `[^ ]*` takes
/// the non-space run after that `/`; no `/` is left for a second group.
/// `.` matches any character but `\n`, which a line never holds.
#[verifier::external_body]
fn find_directive(m: &DirectiveMatcher, line: &str) -> (r: Option<String>)
    requires
        m.pattern@ == DIRECTIVE_PATTERN@,
        !line@.contains('\n'),
    ensures
        r is Some <==> first_index(line@, MARKER@, 0) is Some,
        r matches Some(t) ==> t@ == directive_span(line@),
{
    m.re.find(line).map(|x| x.as_str().to_string())
}

impl DirectiveMatcher {
    /// The matcher holds the directive pattern.
    pub closed spec fn wf(&self) -> bool {
        self.pattern@ == DIRECTIVE_PATTERN@
    }

    /// Compiles the directive pattern.
    pub fn new() -> (r: DirectiveMatcher)
        ensures
            r.wf(),
    {
        match compile(DIRECTIVE_PATTERN) {
            Some(m) => m,
            None => vstd::pervasive::unreached(),
        }
    }

    /// The identifiers that `line` names, in a strictly increasing list.
    fn add_line(&self, line: &Vec<char>, marker: &Vec<char>, found: &mut Vec<Vec<char>>)
        requires
            self.wf(),
            marker@ == MARKER@,
            !line@.contains('\n'),
            strictly_sorted(views(old(found)@)),
        ensures
            strictly_sorted(views(final(found)@)),
            views(final(found)@).to_set() == views(old(found)@).to_set().union(
                line_identifiers(line@).to_set(),
            ),
    {
        proof {
            reveal_strlit("rubocop:disable");
        }
        assert(marker.len() > 0);
        let s = string_of(line);
        match find_directive(self, s.as_str()) {
            Some(t) => {
                let tc = chars_of(t.as_str());
                let cleaned = strip_marks_chars(&erase_chars(&tc, marker));
                let toks = split_chars(&cleaned, ',');
                let ghost ids = views(toks@);
                let ghost start = views(found@).to_set();
                let mut j: usize = 0;
                assert(ids.take(0).to_set() =~= Set::<Seq<char>>::empty());
                assert(start.union(Set::empty()) =~= start);
                while j < toks.len()
                    invariant
                        j <= toks.len(),
                        ids == views(toks@),
                        strictly_sorted(views(found@)),
                        views(found@).to_set() == start.union(ids.take(j as int).to_set()),
                    decreases toks.len() - j,
                {
                    insert_sorted(found, &toks[j]);
                    proof {
                        assert(ids.take(j + 1) =~= ids.take(j as int).push(ids[j as int]));
                        ids.take(j as int).lemma_push_to_set_commute(ids[j as int]);
                        assert(start.union(ids.take(j + 1).to_set()) =~= start.union(
                            ids.take(j as int).to_set(),
                        ).insert(ids[j as int]));
                    }
                    j = j + 1;
                }
                assert(ids.take(j as int) =~= ids);
            },
            None => {
                assert(line_identifiers(line@).to_set() =~= Set::empty());
                assert(views(found@).to_set().union(Set::empty()) =~= views(found@).to_set());
            },
        }
    }

    /// The distinct identifiers that the directives of `content` name, in
    /// increasing order.
    pub fn extract(&self, content: &str) -> (r: Vec<String>)
        requires
            self.wf(),
        ensures
            strictly_sorted(string_views(r@)),
            string_views(r@).to_set() == directive_set(content@),
    {
        let chars = chars_of(content);
        let marker = chars_of(MARKER);
        let pieces = split_chars(&chars, '\n');
        proof {
            lemma_split_on_nonempty(content@, '\n');
        }
        let np = pieces.len();
        let n = if pieces[np - 1].len() == 0 {
            np - 1
        } else {
            np
        };
        let ghost ls = lines_of(content@);
        assert(ls.len() == n);
        let mut found: Vec<Vec<char>> = Vec::new();
        let mut i: usize = 0;
        assert(ls.take(0) =~= Seq::<Seq<char>>::empty());
        assert(views(found@).to_set() =~= Set::<Seq<char>>::empty());
        while i < n
            invariant
                i <= n == ls.len(),
                np == pieces.len(),
                n <= np,
                self.wf(),
                marker@ == MARKER@,
                ls == lines_of(content@),
                views(pieces@) == split_on(content@, '\n'),
                strictly_sorted(views(found@)),
                views(found@).to_set() == identifiers_of_lines(ls.take(i as int)),
            decreases n - i,
        {
            let piece = &pieces[i];
            let line = if i + 1 < np && piece.len() > 0 && piece[piece.len() - 1] == '\r' {
                prefix(piece, piece.len() - 1)
            } else {
                prefix(piece, piece.len())
            };
            proof {
                assert(views(pieces@)[i as int] == piece@);
                assert(piece@.take(piece.len() as int) =~= piece@);
                assert(piece@.take(piece.len() - 1) =~= piece@.drop_last());
                assert(line@ == ls[i as int]);
                assert(line@ =~= piece@.take(line@.len() as int));
                lemma_split_on_free_of_sep(content@, '\n');
                assert(!line@.contains('\n')) by {
                    if line@.contains('\n') {
                        let q = choose|q: int| 0 <= q < line@.len() && line@[q] == '\n';
                        assert(piece@[q] == '\n');
                        assert(split_on(content@, '\n')[i as int][q] == '\n');
                    }
                }
                assert(ls.take(i + 1).drop_last() =~= ls.take(i as int));
            }
            self.add_line(&line, &marker, &mut found);
            i = i + 1;
        }
        assert(ls.take(n as int) =~= ls);
        let mut r: Vec<String> = Vec::new();
        let mut k: usize = 0;
        while k < found.len()
            invariant
                k <= found.len(),
                string_views(r@) == views(found@).take(k as int),
            decreases found.len() - k,
        {
            let s = string_of(&found[k]);
            let ghost before = string_views(r@);
            r.push(s);
            assert(string_views(r@) =~= before.push(found@[k as int]@));
            assert(string_views(r@) =~= views(found@).take(k + 1));
            k = k + 1;
        }
        assert(views(found@).take(k as int) =~= views(found@));
        r
    }
}

} // verus!

verus! {

/// The distinct suppression identifiers of `content`, in increasing order.
pub fn find_disabled_copss(content: &str) -> (r: Vec<String>)
    ensures
        strictly_sorted(string_views(r@)),
        string_views(r@).to_set() == directive_set(content@),
{
    DirectiveMatcher::new().extract(content)
}

} // verus!
