use vstd::prelude::*;
use crate::chars::{chars_of, string_of, starts_with, contains_char, trim, split_lines, join_lines,
    subvec, spec_starts_with, spec_contains_char, spec_trim, spec_split_lines, spec_join_lines,
    spec_deep, lemma_split_join, lemma_split_lines_shape};
use crate::config::{Config, LanguageConfig, spec_has_ext};
use crate::symbol::{Kind, Symbol, SymbolModel};
use crate::text::{Loc, Span};
use crate::ts::{RawCapture, RawCaptureModel, parse_tree, run_query};

verus! {

/// Why one file's parse produced nothing: the stage that failed.
#[derive(Clone, Copy, Debug, PartialEq, Eq, Structural)]
pub enum ParseError {
    /// The syntax tree could not be built for this file's text.
    Parse,
}

/// The last index at which `c` occurs in `s`, or -1.
pub open spec fn spec_last_index_of(s: Seq<char>, c: char) -> int
    decreases s.len(),
{
    if s.len() == 0 {
        -1
    } else if s.last() == c {
        s.len() - 1
    } else {
        spec_last_index_of(s.drop_last(), c)
    }
}

/// The file name: what follows the last path separator.
pub open spec fn spec_file_name(p: Seq<char>) -> Seq<char> {
    p.skip(spec_last_index_of(p, '/') + 1)
}

/// The extension: what follows the last dot of the file name, provided that
/// dot is not its first character.
pub open spec fn spec_ext_of(p: Seq<char>) -> Option<Seq<char>> {
    let name = spec_file_name(p);
    let k = spec_last_index_of(name, '.');
    if k <= 0 {
        None
    } else {
        Some(name.skip(k + 1))
    }
}

/// The stem: the file name up to that dot, or whole when there is none.
pub open spec fn spec_stem_of(p: Seq<char>) -> Option<Seq<char>> {
    let name = spec_file_name(p);
    let k = spec_last_index_of(name, '.');
    if name.len() == 0 {
        None
    } else if k <= 0 {
        Some(name)
    } else {
        Some(name.take(k))
    }
}

pub proof fn lemma_last_index_of(s: Seq<char>, c: char)
    ensures
        -1 <= spec_last_index_of(s, c) < s.len(),
        spec_last_index_of(s, c) >= 0 ==> s[spec_last_index_of(s, c)] == c,
        forall|j: int| spec_last_index_of(s, c) < j < s.len() ==> s[j] != c,
    decreases s.len(),
{
    if s.len() > 0 && s.last() != c {
        lemma_last_index_of(s.drop_last(), c);
        assert(forall|j: int| 0 <= j < s.len() - 1 ==> s.drop_last()[j] == s[j]);
        assert(s[s.len() - 1] != c);
    }
}

/// The last occurrence of `c` in `v`, found from the right.
fn last_index_of(v: &Vec<char>, c: char) -> (r: Option<usize>)
    ensures
        match r {
            Some(i) => i < v@.len() && spec_last_index_of(v@, c) == i,
            None => spec_last_index_of(v@, c) == -1,
        },
{
    let mut i: usize = v.len();
    proof {
        assert(v@.take(v@.len() as int) =~= v@);
    }
    while i > 0
        invariant
            i <= v@.len(),
            spec_last_index_of(v@, c) == spec_last_index_of(v@.take(i as int), c),
        decreases i,
    {
        proof {
            assert(v@.take(i as int).last() == v@[i - 1]);
            assert(v@.take(i as int).drop_last() =~= v@.take(i - 1));
        }
        if v[i - 1] == c {
            return Some(i - 1);
        }
        i = i - 1;
    }
    None
}

/// Classifies one candidate file: the parser for it, or nothing when its
/// extension selects no configured language (such a file is simply not
/// indexed; this is not an error).
pub struct Parser<'a> {
    pub path: String,
    pub language_config: &'a LanguageConfig,
}

impl<'a> Parser<'a> {
    /// Picks the language for `path` by its extension: the first configured
    /// language claiming it, or nothing when the path has no extension or no
    /// configured language claims it (such a file is not indexed, and that
    /// is no error).
    pub fn from_path(config: &'a Config, path: &str) -> (r: Option<Parser<'a>>)
        ensures
            match r {
                Some(p) => {
                    &&& p.path@ == path@
                    &&& spec_ext_of(path@) is Some
                    &&& exists|i: int|
                        {
                            &&& 0 <= i < config.languages@.len()
                            &&& p.language_config == &config.languages@[i]
                            &&& spec_has_ext(&config.languages@[i], spec_ext_of(path@)->Some_0)
                            &&& forall|k: int|
                                0 <= k < i ==> !spec_has_ext(
                                    &config.languages@[k],
                                    spec_ext_of(path@)->Some_0,
                                )
                        }
                },
                None => spec_ext_of(path@) is None || (forall|i: int|
                    0 <= i < config.languages@.len() ==> !spec_has_ext(
                        &config.languages@[i],
                        spec_ext_of(path@)->Some_0,
                    )),
            },
    {
        let pv = chars_of(path);
        let pl = pv.len();
        let name = match last_index_of(&pv, '/') {
            Some(i) => subvec(&pv, i + 1, pl),
            None => subvec(&pv, 0, pl),
        };
        proof {
            assert(pv@.subrange(0, pv@.len() as int) =~= pv@.skip(0));
            assert(name@ == spec_file_name(path@));
        }
        let ext = match last_index_of(&name, '.') {
            Some(k) if k > 0 => subvec(&name, k + 1, name.len()),
            _ => {
                return None;
            },
        };
        proof {
            assert(ext@ == spec_ext_of(path@)->Some_0);
        }
        match config.language_for(&ext) {
            Some(lc) => Some(Parser { path: path.to_owned(), language_config: lc }),
            None => None,
        }
    }

    /// The synthetic component name for an embedded-script file: the file's
    /// base name with its extension stripped.
    pub fn vue_component_name(path: &str) -> (r: Option<String>)
        ensures
            match r {
                Some(s) => spec_stem_of(path@) == Some(s@),
                None => spec_stem_of(path@) is None,
            },
    {
        let pv = chars_of(path);
        let pl = pv.len();
        let name = match last_index_of(&pv, '/') {
            Some(i) => subvec(&pv, i + 1, pl),
            None => subvec(&pv, 0, pl),
        };
        proof {
            assert(pv@.subrange(0, pv@.len() as int) =~= pv@.skip(0));
            assert(name@ == spec_file_name(path@));
        }
        if name.len() == 0 {
            return None;
        }
        match last_index_of(&name, '.') {
            Some(k) if k > 0 => {
                let stem = subvec(&name, 0, k);
                proof {
                    assert(stem@ =~= spec_file_name(path@).take(k as int));
                }
                Some(string_of(&stem))
            },
            _ => Some(string_of(&name)),
        }
    }
}

/// A line that opens the script region: once blanks are trimmed it starts
/// the script tag and closes it with `>` somewhere on the same line.
pub open spec fn spec_is_open_marker(line: Seq<char>) -> bool {
    spec_starts_with(spec_trim(line), "<script"@) && spec_contains_char(spec_trim(line), '>')
}

/// A line that closes the script region.
pub open spec fn spec_is_close_marker(line: Seq<char>) -> bool {
    spec_starts_with(spec_trim(line), "</script"@)
}

fn is_open_marker(line: &Vec<char>) -> (r: bool)
    ensures
        r == spec_is_open_marker(line@),
{
    let t = trim(line);
    let tag = chars_of("<script");
    starts_with(&t, &tag) && contains_char(&t, '>')
}

fn is_close_marker(line: &Vec<char>) -> (r: bool)
    ensures
        r == spec_is_close_marker(line@),
{
    let t = trim(line);
    let tag = chars_of("</script");
    starts_with(&t, &tag)
}

/// The first line opening a script region, if any.
pub open spec fn spec_open_idx(lines: Seq<Seq<char>>) -> Option<int>
    decreases lines.len(),
{
    if lines.len() == 0 {
        None
    } else if spec_is_open_marker(lines[0]) {
        Some(0)
    } else {
        match spec_open_idx(lines.drop_first()) {
            None => None,
            Some(i) => Some(i + 1),
        }
    }
}

/// The first line closing the region, among the lines after the opener.
pub open spec fn spec_close_idx(lines: Seq<Seq<char>>) -> Option<int>
    decreases lines.len(),
{
    if lines.len() == 0 {
        None
    } else if spec_is_close_marker(lines[0]) {
        Some(0)
    } else {
        match spec_close_idx(lines.drop_first()) {
            None => None,
            Some(i) => Some(i + 1),
        }
    }
}

pub proof fn lemma_open_idx_at(lines: Seq<Seq<char>>, i: int)
    requires
        0 <= i < lines.len(),
        spec_is_open_marker(lines[i]),
        forall|j: int| 0 <= j < i ==> !spec_is_open_marker(lines[j]),
    ensures
        spec_open_idx(lines) == Some(i),
    decreases i,
{
    if i > 0 {
        assert(forall|j: int| 0 <= j < lines.drop_first().len() ==> lines.drop_first()[j]
            == lines[j + 1]);
        lemma_open_idx_at(lines.drop_first(), i - 1);
    }
}

pub proof fn lemma_open_idx_none(lines: Seq<Seq<char>>)
    requires
        forall|j: int| 0 <= j < lines.len() ==> !spec_is_open_marker(lines[j]),
    ensures
        spec_open_idx(lines) == None::<int>,
    decreases lines.len(),
{
    if lines.len() > 0 {
        lemma_open_idx_none(lines.drop_first());
    }
}

pub proof fn lemma_close_idx_at(lines: Seq<Seq<char>>, i: int)
    requires
        0 <= i < lines.len(),
        spec_is_close_marker(lines[i]),
        forall|j: int| 0 <= j < i ==> !spec_is_close_marker(lines[j]),
    ensures
        spec_close_idx(lines) == Some(i),
    decreases i,
{
    if i > 0 {
        assert(forall|j: int| 0 <= j < lines.drop_first().len() ==> lines.drop_first()[j]
            == lines[j + 1]);
        lemma_close_idx_at(lines.drop_first(), i - 1);
    }
}

pub proof fn lemma_close_idx_none(lines: Seq<Seq<char>>)
    requires
        forall|j: int| 0 <= j < lines.len() ==> !spec_is_close_marker(lines[j]),
    ensures
        spec_close_idx(lines) == None::<int>,
    decreases lines.len(),
{
    if lines.len() > 0 {
        lemma_close_idx_none(lines.drop_first());
    }
}

/// What extracting the script region yields: the lines strictly between the
/// first opening marker and the first closing marker after it, preceded by
/// one blank line for every source line up to and including the opener, so
/// that each kept line keeps its source line number.
pub open spec fn spec_extract_script(content: Seq<char>) -> Option<Seq<char>> {
    let lines = spec_split_lines(content);
    match spec_open_idx(lines) {
        None => None,
        Some(i) => match spec_close_idx(lines.skip(i + 1)) {
            None => None,
            Some(d) => Some(
                spec_join_lines(
                    Seq::new((i + 1) as nat, |k: int| Seq::<char>::empty()) + lines.subrange(
                        i + 1,
                        i + 1 + d,
                    ),
                ),
            ),
        },
    }
}

impl<'a> Parser<'a> {
    /// Cuts the embedded script region out of a markup file, left-padded
    /// with blank lines so positions found in it are positions in the file.
    /// Nothing is returned when no complete region exists; for such a file
    /// that is a valid terminal state, not an error.
    pub fn extract_vue_script(content: &Vec<char>) -> (r: Option<Vec<char>>)
        ensures
            match r {
                Some(s) => spec_extract_script(content@) == Some(s@),
                None => spec_extract_script(content@) is None,
            },
    {
        let lines = split_lines(content);
        let ghost lv = spec_deep(lines@);
        let n = lines.len();
        let mut open: usize = 0;
        let mut found_open = false;
        let mut i: usize = 0;
        while i < n && !found_open
            invariant
                i <= n,
                n == lines@.len(),
                lv == spec_deep(lines@),
                !found_open ==> forall|j: int| 0 <= j < i ==> !spec_is_open_marker(lv[j]),
                found_open ==> (open < i && spec_is_open_marker(lv[open as int]) && forall|j: int|
                    0 <= j < open ==> !spec_is_open_marker(lv[j])),
            decreases n - i,
    {
            if is_open_marker(&lines[i]) {
                open = i;
                found_open = true;
            }
            i = i + 1;
        }
        if !found_open {
            proof {
                lemma_open_idx_none(lv);
            }
            return None;
        }
        proof {
            lemma_open_idx_at(lv, open as int);
        }
        let mut close: usize = 0;
        let mut found_close = false;
        let mut k: usize = open + 1;
        while k < n && !found_close
            invariant
                open + 1 <= k <= n || (found_close && k <= n),
                open < n,
                n == lines@.len(),
                lv == spec_deep(lines@),
                !found_close ==> (open + 1 <= k && forall|j: int|
                    open + 1 <= j < k ==> !spec_is_close_marker(lv[j])),
                found_close ==> (open + 1 <= close && close < k && spec_is_close_marker(
                    lv[close as int],
                ) && forall|j: int| open + 1 <= j < close ==> !spec_is_close_marker(lv[j])),
            decreases n - k,
        {
            if is_close_marker(&lines[k]) {
                close = k;
                found_close = true;
            }
            k = k + 1;
        }
        let ghost after = lv.skip(open + 1);
        if !found_close {
            proof {
                assert(forall|j: int| 0 <= j < after.len() ==> after[j] == lv[open + 1 + j]);
                lemma_close_idx_none(after);
            }
            return None;
        }
        proof {
            assert(forall|j: int| 0 <= j < after.len() ==> after[j] == lv[open + 1 + j]);
            lemma_close_idx_at(after, close - open - 1);
        }
        let mut parts: Vec<Vec<char>> = Vec::new();
        let pad = open + 1;
        let mut b: usize = 0;
        proof {
            assert(spec_deep(parts@) =~~= Seq::new(0, |q: int| Seq::<char>::empty()));
        }
        while b < pad
            invariant
                b <= pad,
                spec_deep(parts@) == Seq::new(b as nat, |q: int| Seq::<char>::empty()),
            decreases pad - b,
        {
            let ghost pre = parts@;
            parts.push(Vec::new());
            proof {
                assert(pre.len() == spec_deep(pre).len());
                assert(spec_deep(pre).len() == b);
                assert(parts@.len() == b + 1);
                assert forall|q: int| 0 <= q < b implies pre[q]@ == Seq::<char>::empty() by {
                    assert(pre[q]@ == spec_deep(pre)[q]);
                    assert(spec_deep(pre)[q] == Seq::new(b as nat, |w: int| Seq::<char>::empty())[q]);
                }
                assert(spec_deep(parts@) =~~= Seq::new((b + 1) as nat, |q: int| Seq::<char>::empty()));
            }
            b = b + 1;
        }
        let mut t: usize = open + 1;
        proof {
            assert(spec_deep(parts@) =~~= Seq::new((open + 1) as nat, |q: int| Seq::<char>::empty())
                + lv.subrange(open + 1, open + 1));
        }
        while t < close
            invariant
                open + 1 <= t <= close,
                close < n,
                n == lines@.len(),
                lv == spec_deep(lines@),
                spec_deep(parts@) == Seq::new((open + 1) as nat, |q: int| Seq::<char>::empty())
                    + lv.subrange(open + 1, t as int),
            decreases close - t,
        {
            let ghost pre = parts@;
            let line = subvec(&lines[t], 0, lines[t].len());
            proof {
                assert(lines@[t as int]@.subrange(0, lines@[t as int]@.len() as int)
                    =~= lines@[t as int]@);
                assert(line@ == lv[t as int]);
            }
            parts.push(line);
            proof {
                assert(pre.len() == spec_deep(pre).len());
                assert(spec_deep(pre).len() == t);
                assert(parts@.len() == pre.len() + 1);
                assert(forall|q: int| 0 <= q < pre.len() ==> parts@[q] == pre[q]);
                assert forall|q: int| 0 <= q < pre.len() implies pre[q]@ == (Seq::new(
                    (open + 1) as nat,
                    |w: int| Seq::<char>::empty(),
                ) + lv.subrange(open + 1, t as int))[q] by {
                    assert(pre[q]@ == spec_deep(pre)[q]);
                    assert(spec_deep(pre)[q] == (Seq::new((open + 1) as nat, |w: int| Seq::<
                        char,
                    >::empty()) + lv.subrange(open + 1, t as int))[q]);
                }
                assert(spec_deep(parts@) =~~= Seq::new((open + 1) as nat, |q: int| Seq::<char>::empty())
                    + lv.subrange(open + 1, t + 1));
            }
            t = t + 1;
        }
        let out = join_lines(&parts);
        proof {
            assert(spec_deep(parts@) =~~= Seq::new((open + 1) as nat, |q: int| Seq::<char>::empty())
                + lv.subrange(open + 1, close as int));
        }
        Some(out)
    }
}

/// Embedded-script line fidelity: when a script region is found, the lines
/// of the extracted text line up with the source — every line up to and
/// including the opener becomes blank, and each kept script line stands at
/// its own source line index.
pub proof fn lemma_script_line_fidelity(content: Seq<char>)
    requires
        spec_extract_script(content) is Some,
    ensures
        ({
            let lines = spec_split_lines(content);
            let i = spec_open_idx(lines)->Some_0;
            let j = i + 1 + spec_close_idx(lines.skip(i + 1))->Some_0;
            let body = spec_split_lines(spec_extract_script(content)->Some_0);
            &&& body.len() == j
            &&& forall|k: int| 0 <= k <= i ==> (#[trigger] body[k]).len() == 0
            &&& forall|k: int| i < k < j ==> #[trigger] body[k] == lines[k]
        }),
{
    let lines = spec_split_lines(content);
    let i = spec_open_idx(lines)->Some_0;
    lemma_open_idx_some_range(lines);
    let d = spec_close_idx(lines.skip(i + 1))->Some_0;
    lemma_close_idx_some_range(lines.skip(i + 1));
    let j = i + 1 + d;
    let parts = Seq::new((i + 1) as nat, |k: int| Seq::<char>::empty()) + lines.subrange(
        i + 1,
        j,
    );
    lemma_split_lines_shape(content);
    assert(forall|a: int, b: int|
        0 <= a < parts.len() && 0 <= b < parts[a].len() ==> parts[a][b] != '\n') by {
        assert(forall|a: int|
            i + 1 <= a < parts.len() ==> parts[a] == lines.subrange(i + 1, j)[a - i - 1]);
    }
    lemma_split_join(parts);
}

pub proof fn lemma_open_idx_some_range(lines: Seq<Seq<char>>)
    requires
        spec_open_idx(lines) is Some,
    ensures
        0 <= spec_open_idx(lines)->Some_0 < lines.len(),
    decreases lines.len(),
{
    if lines.len() > 0 && !spec_is_open_marker(lines[0]) {
        if spec_open_idx(lines.drop_first()) is Some {
            lemma_open_idx_some_range(lines.drop_first());
        }
    }
}

pub proof fn lemma_close_idx_some_range(lines: Seq<Seq<char>>)
    requires
        spec_close_idx(lines) is Some,
    ensures
        0 <= spec_close_idx(lines)->Some_0 < lines.len(),
    decreases lines.len(),
{
    if lines.len() > 0 && !spec_is_close_marker(lines[0]) {
        if spec_close_idx(lines.drop_first()) is Some {
            lemma_close_idx_some_range(lines.drop_first());
        }
    }
}

/// The symbol one capture yields: positions move from the engine's 0-based
/// coordinates to 1-based ones, and the span stays collapsed on the start
/// position — symbols are point locations here, as the cached form keeps
/// only the start anyway.
pub open spec fn spec_symbol_of(kind: Kind, c: RawCaptureModel) -> SymbolModel {
    SymbolModel {
        span: Span {
            start: Loc { line: (c.row + 1) as u64, column: (c.column + 1) as u64 },
            end: Loc { line: (c.row + 1) as u64, column: (c.column + 1) as u64 },
        },
        text: c.text,
        kind,
    }
}

/// First-seen-kind-wins deduplication by start position: a capture whose
/// start position was already taken yields nothing.
pub open spec fn spec_dedup(
    caps: Seq<(Kind, RawCaptureModel)>,
    seen: Set<(u64, u64)>,
) -> Seq<SymbolModel>
    decreases caps.len(),
{
    if caps.len() == 0 {
        Seq::empty()
    } else {
        let kind = caps[0].0;
        let c = caps[0].1;
        let pos = (c.row, c.column);
        if seen.contains(pos) {
            spec_dedup(caps.drop_first(), seen)
        } else {
            seq![spec_symbol_of(kind, c)] + spec_dedup(caps.drop_first(), seen.insert(pos))
        }
    }
}

/// The captures a vector of tagged raw captures stands for.
pub open spec fn spec_caps(v: Seq<(Kind, RawCapture)>) -> Seq<(Kind, RawCaptureModel)> {
    Seq::new(v.len(), |i: int| (v[i].0, v[i].1@))
}

fn position_seen(seen: &Vec<(u64, u64)>, row: u64, column: u64) -> (r: bool)
    ensures
        r == exists|j: int| 0 <= j < seen@.len() && seen@[j] == (row, column),
{
    let mut j: usize = 0;
    while j < seen.len()
        invariant
            j <= seen@.len(),
            forall|k: int| 0 <= k < j ==> seen@[k] != (row, column),
        decreases seen.len() - j,
    {
        let (r0, c0) = seen[j];
        if r0 == row && c0 == column {
            return true;
        }
        j = j + 1;
    }
    false
}

/// Deduplicates captures by start position, first seen winning, and turns
/// each survivor into a symbol with 1-based point coordinates.
pub fn dedup_symbols(caps: &Vec<(Kind, RawCapture)>) -> (r: Vec<Symbol>)
    requires
        forall|i: int|
            0 <= i < caps@.len() ==> (#[trigger] caps@[i].1)@.row < u64::MAX && caps@[i].1@.column
                < u64::MAX,
    ensures
        spec_symbols(r@) == spec_dedup(spec_caps(caps@), Set::empty()),
{
    let mut out: Vec<Symbol> = Vec::new();
    let mut seen: Vec<(u64, u64)> = Vec::new();
    let ghost all = spec_caps(caps@);
    let mut i: usize = 0;
    proof {
        assert(all.skip(0) =~= all);
        assert(spec_symbols(out@) =~= Seq::<SymbolModel>::empty());
        assert(spec_seen_set(seen@) =~= Set::<(u64, u64)>::empty());
        assert(Seq::<SymbolModel>::empty() + spec_dedup(all, Set::empty()) =~= spec_dedup(
            all,
            Set::empty(),
        ));
    }
    while i < caps.len()
        invariant
            i <= caps@.len(),
            all == spec_caps(caps@),
            forall|k: int|
                0 <= k < caps@.len() ==> (#[trigger] caps@[k].1)@.row < u64::MAX
                    && caps@[k].1@.column < u64::MAX,
            spec_dedup(all, Set::empty()) == spec_symbols(out@) + spec_dedup(
                all.skip(i as int),
                spec_seen_set(seen@),
            ),
        decreases caps.len() - i,
    {
        let ghost seen_set = spec_seen_set(seen@);
        let kind = caps[i].0;
        let row = caps[i].1.row;
        let column = caps[i].1.column;
        proof {
            assert(all.skip(i as int)[0] == all[i as int]);
            assert(all.skip(i as int).drop_first() =~= all.skip(i + 1));
        }
        if position_seen(&seen, row, column) {
            proof {
                assert(seen_set.contains((row, column)));
                assert(all[i as int].1.row == row && all[i as int].1.column == column);
                assert(spec_dedup(all.skip(i as int), seen_set) == spec_dedup(
                    all.skip(i + 1),
                    seen_set,
                ));
            }
        } else {
            proof {
                assert(all[i as int].1.row == row && all[i as int].1.column == column);
            }
            proof {
                assert(!seen_set.contains((row, column)));
            }
            let text = {
                let tv = chars_of(caps[i].1.text.as_str());
                string_of(&tv)
            };
            let loc = Loc::new(row + 1, column + 1);
            let sym = Symbol { span: Span::new(loc, loc), text, kind };
            let ghost prev_out = out@;
            let ghost prev_seen = seen@;
            out.push(sym);
            seen.push((row, column));
            proof {
                assert forall|p: (u64, u64)|
                    spec_seen_set(seen@).contains(p) == seen_set.insert((row, column)).contains(
                        p,
                    ) by {
                    if spec_seen_set(seen@).contains(p) {
                        let j = choose|j: int| 0 <= j < seen@.len() && seen@[j] == p;
                        if j < prev_seen.len() {
                            assert(prev_seen[j] == p);
                            assert(seen_set.contains(p));
                        } else {
                            assert(p == (row, column));
                        }
                    }
                    if seen_set.insert((row, column)).contains(p) {
                        if p == (row, column) {
                            assert(seen@[prev_seen.len() as int] == p);
                        } else {
                            assert(seen_set.contains(p));
                            let j = choose|j: int| 0 <= j < prev_seen.len() && prev_seen[j] == p;
                            assert(seen@[j] == p);
                        }
                    }
                }
                assert(spec_seen_set(seen@) =~= seen_set.insert((row, column)));
                assert(all[i as int] == (caps@[i as int].0, caps@[i as int].1@));
                assert(sym@ == spec_symbol_of(all[i as int].0, all[i as int].1));
                assert(spec_symbols(out@) =~= spec_symbols(prev_out) + seq![sym@]);
                assert(spec_symbols(prev_out) + (seq![sym@] + spec_dedup(
                    all.skip(i + 1),
                    seen_set.insert((row, column)),
                )) =~= (spec_symbols(prev_out) + seq![sym@]) + spec_dedup(
                    all.skip(i + 1),
                    seen_set.insert((row, column)),
                ));
            }
        }
        i = i + 1;
    }
    proof {
        assert(all.skip(caps@.len() as int).len() == 0);
        assert(spec_symbols(out@) + Seq::<SymbolModel>::empty() =~= spec_symbols(out@));
    }
    out
}

/// The models of a vector of symbols.
pub open spec fn spec_symbols(v: Seq<Symbol>) -> Seq<SymbolModel> {
    Seq::new(v.len(), |i: int| v[i]@)
}

/// The positions a seen-vector stands for.
pub open spec fn spec_seen_set(v: Seq<(u64, u64)>) -> Set<(u64, u64)> {
    Set::new(|p: (u64, u64)| exists|j: int| 0 <= j < v.len() && v[j] == p)
}

/// Every survivor's position was unseen before, and survivors' positions
/// are pairwise distinct: deduplication yields at most one symbol per start
/// position, however many queries matched it.
pub proof fn lemma_dedup_positions(caps: Seq<(Kind, RawCaptureModel)>, seen: Set<(u64, u64)>)
    requires
        forall|i: int|
            0 <= i < caps.len() ==> (#[trigger] caps[i].1).row < u64::MAX && caps[i].1.column
                < u64::MAX,
    ensures
        forall|a: int|
            0 <= a < spec_dedup(caps, seen).len() ==> !seen.contains(
                spec_pos(#[trigger] spec_dedup(caps, seen)[a]),
            ),
        forall|a: int, b: int|
            0 <= a < b < spec_dedup(caps, seen).len() ==> spec_pos(
                #[trigger] spec_dedup(caps, seen)[a],
            ) != spec_pos(#[trigger] spec_dedup(caps, seen)[b]),
    decreases caps.len(),
{
    if caps.len() > 0 {
        let kind = caps[0].0;
        let c = caps[0].1;
        let pos = (c.row, c.column);
        assert(forall|i: int|
            0 <= i < caps.drop_first().len() ==> caps.drop_first()[i] == caps[i + 1]);
        if seen.contains(pos) {
            lemma_dedup_positions(caps.drop_first(), seen);
            assert(spec_dedup(caps, seen) == spec_dedup(caps.drop_first(), seen));
        } else {
            lemma_dedup_positions(caps.drop_first(), seen.insert(pos));
            let rest = spec_dedup(caps.drop_first(), seen.insert(pos));
            let whole = spec_dedup(caps, seen);
            assert(whole == seq![spec_symbol_of(kind, c)] + rest);
            assert(forall|a: int| 0 <= a < rest.len() ==> whole[a + 1] == rest[a]);
            assert(spec_pos(whole[0]) == pos);
            assert forall|b: int| 1 <= b < whole.len() implies spec_pos(#[trigger] whole[b])
                != spec_pos(whole[0]) by {
                assert(whole[b] == rest[b - 1]);
                assert(!seen.insert(pos).contains(spec_pos(rest[b - 1])));
                assert(seen.insert(pos).contains(pos));
            }
            assert forall|a: int|
                0 <= a < whole.len() implies !seen.contains(spec_pos(#[trigger] whole[a])) by {
                if a > 0 {
                    assert(whole[a] == rest[a - 1]);
                    assert(!seen.insert(pos).contains(spec_pos(rest[a - 1])));
                }
            }
            assert forall|a: int, b: int|
                1 <= a < b < whole.len() implies spec_pos(#[trigger] whole[a]) != spec_pos(
                #[trigger] whole[b],
            ) by {
                assert(whole[a] == rest[a - 1] && whole[b] == rest[b - 1]);
                assert(spec_pos(rest[a - 1]) != spec_pos(rest[b - 1]));
            }
        }
    }
}

/// The 0-based position a produced symbol encodes.
pub open spec fn spec_pos(s: SymbolModel) -> (u64, u64) {
    (((s.span.start.line - 1) as u64), ((s.span.start.column - 1) as u64))
}

/// Every symbol's location is 1-based and its span is collapsed on the
/// start position.
pub open spec fn spec_spans_wf(syms: Seq<Symbol>) -> bool {
    forall|i: int|
        0 <= i < syms.len() ==> (#[trigger] syms[i])@.span.wf() && syms[i]@.span.start
            == syms[i]@.span.end
}

/// Deduplication only produces symbols with well-formed, collapsed spans.
pub proof fn lemma_dedup_wf(caps: Seq<(Kind, RawCaptureModel)>, seen: Set<(u64, u64)>)
    requires
        forall|i: int|
            0 <= i < caps.len() ==> (#[trigger] caps[i].1).row < u64::MAX && caps[i].1.column
                < u64::MAX,
    ensures
        forall|a: int|
            0 <= a < spec_dedup(caps, seen).len() ==> (#[trigger] spec_dedup(caps, seen)[a]).span.wf()
                && spec_dedup(caps, seen)[a].span.start == spec_dedup(caps, seen)[a].span.end,
    decreases caps.len(),
{
    if caps.len() > 0 {
        let kind = caps[0].0;
        let c = caps[0].1;
        let pos = (c.row, c.column);
        assert(forall|i: int|
            0 <= i < caps.drop_first().len() ==> caps.drop_first()[i] == caps[i + 1]);
        if seen.contains(pos) {
            lemma_dedup_wf(caps.drop_first(), seen);
            assert(spec_dedup(caps, seen) == spec_dedup(caps.drop_first(), seen));
        } else {
            lemma_dedup_wf(caps.drop_first(), seen.insert(pos));
            let rest = spec_dedup(caps.drop_first(), seen.insert(pos));
            let whole = spec_dedup(caps, seen);
            assert(whole == seq![spec_symbol_of(kind, c)] + rest);
            assert(whole[0].span.wf());
            assert(forall|a: int| 1 <= a < whole.len() ==> whole[a] == rest[a - 1]);
        }
    }
}

/// Pairwise-distinct start positions from index `k` on.
pub open spec fn spec_tail_positions_distinct(syms: Seq<Symbol>, k: int) -> bool {
    forall|a: int, b: int|
        k <= a < b < syms.len() ==> spec_pos(#[trigger] syms[a]@) != spec_pos(#[trigger] syms[b]@)
}

/// How many synthetic symbols an embedded-script file contributes.
pub open spec fn spec_synth_count(embedded: bool, path: Seq<char>) -> int {
    if embedded && spec_stem_of(path) is Some {
        1
    } else {
        0
    }
}

impl<'a> Parser<'a> {
    /// Parses this file's text and returns every unique symbol its
    /// language's queries find, in query-configuration order and engine
    /// match order, deduplicated by start position with the first seen kind
    /// winning. For an embedded-script file the synthetic component-name
    /// symbol comes first, at line 1 column 1; a file whose script region is
    /// missing yields only that, and no error.
    pub fn on_symbol(&self, content: &str) -> (r: Result<Vec<Symbol>, ParseError>)
        ensures
            r is Err ==> r->Err_0 == ParseError::Parse,
            (self.language_config.embedded_script && spec_extract_script(content@) is None)
                ==> r is Ok && r->Ok_0@.len() == spec_synth_count(true, self.path@),
            r is Ok ==> spec_spans_wf(r->Ok_0@),
            r is Ok ==> spec_tail_positions_distinct(
                r->Ok_0@,
                spec_synth_count(self.language_config.embedded_script, self.path@),
            ),
            (r is Ok && self.language_config.embedded_script && spec_stem_of(self.path@) is Some)
                ==> r->Ok_0@.len() >= 1 && r->Ok_0@[0]@ == (SymbolModel {
                span: Span { start: Loc { line: 1, column: 1 }, end: Loc { line: 1, column: 1 } },
                text: spec_stem_of(self.path@)->Some_0,
                kind: Kind::Class,
            }),
    {
        let mut symbols: Vec<Symbol> = Vec::new();
        let embedded = self.language_config.embedded_script;
        let mut text: String = String::new();
        if embedded {
            match Self::vue_component_name(self.path.as_str()) {
                Some(name) => {
                    let loc = Loc::new(1, 1);
                    symbols.push(Symbol { span: Span::new(loc, loc), text: name, kind: Kind::Class });
                },
                None => {},
            }
            let cv = chars_of(content);
            match Self::extract_vue_script(&cv) {
                Some(script) => {
                    text = string_of(&script);
                },
                None => {
                    proof {
                        assert(spec_spans_wf(symbols@));
                    }
                    return Ok(symbols);
                },
            }
        } else {
            text = content.to_owned();
        }
        proof {
            assert(spec_spans_wf(symbols@));
        }
        let ghost synth = symbols@;
        let tree = match parse_tree(&self.language_config.language, text.as_str()) {
            Some(t) => t,
            None => {
                return Err(ParseError::Parse);
            },
        };
        let mut caps: Vec<(Kind, RawCapture)> = Vec::new();
        let mut g: usize = 0;
        while g < self.language_config.symbol_queries.len()
            invariant
                forall|q: int|
                    0 <= q < caps@.len() ==> (#[trigger] caps@[q].1)@.row < u64::MAX
                        && caps@[q].1@.column < u64::MAX,
            decreases self.language_config.symbol_queries.len() - g,
        {
            let kind = self.language_config.symbol_queries[g].0;
            let qn = self.language_config.symbol_queries[g].1.len();
            let mut qi: usize = 0;
            while qi < qn
                invariant
                    qn == self.language_config.symbol_queries@[g as int].1@.len(),
                    g < self.language_config.symbol_queries@.len(),
                    forall|q: int|
                        0 <= q < caps@.len() ==> (#[trigger] caps@[q].1)@.row < u64::MAX
                            && caps@[q].1@.column < u64::MAX,
                decreases qn - qi,
            {
                let mut found = run_query(
                    &self.language_config.symbol_queries[g].1[qi],
                    &tree,
                    text.as_str(),
                );
                while found.len() > 0
                    invariant
                        forall|q: int|
                            0 <= q < found@.len() ==> (#[trigger] found@[q])@.row < u64::MAX
                                && found@[q]@.column < u64::MAX,
                        forall|q: int|
                            0 <= q < caps@.len() ==> (#[trigger] caps@[q].1)@.row < u64::MAX
                                && caps@[q].1@.column < u64::MAX,
                    decreases found@.len(),
                {
                    let ghost fb = found@;
                    let c = found.remove(0);
                    proof {
                        assert(c == fb[0]);
                        assert(forall|q: int| 0 <= q < found@.len() ==> found@[q] == fb[q + 1]);
                    }
                    caps.push((kind, c));
                }
                qi = qi + 1;
            }
            g = g + 1;
        }
        let deduped = dedup_symbols(&caps);
        proof {
            lemma_dedup_positions(spec_caps(caps@), Set::empty());
            lemma_dedup_wf(spec_caps(caps@), Set::empty());
        }
        let ghost dd0 = deduped@;
        let mut deduped = deduped;
        let n = deduped.len();
        let mut i: usize = 0;
        while i < n
            invariant
                i <= n,
                n == i + deduped@.len(),
                dd0.len() == n,
                forall|q: int| 0 <= q < deduped@.len() ==> deduped@[q] == dd0[q + i],
                symbols@ == synth + dd0.take(i as int),
            decreases n - i,
        {
            let ghost db = deduped@;
            let sym = deduped.remove(0);
            proof {
                assert(sym == db[0]);
                assert(forall|q: int| 0 <= q < deduped@.len() ==> deduped@[q] == db[q + 1]);
            }
            symbols.push(sym);
            proof {
                assert(synth + dd0.take(i + 1) =~= (synth + dd0.take(i as int)).push(
                    dd0[i as int],
                ));
            }
            i = i + 1;
        }
        proof {
            assert(dd0.take(n as int) =~= dd0);
            assert(spec_symbols(dd0) == spec_dedup(spec_caps(caps@), Set::empty()));
            assert(symbols@ == synth + dd0);
            assert forall|a: int, b: int|
                synth.len() <= a < b < symbols@.len() implies spec_pos(#[trigger] symbols@[a]@)
                != spec_pos(#[trigger] symbols@[b]@) by {
                assert(symbols@[a] == dd0[a - synth.len()]);
                assert(symbols@[b] == dd0[b - synth.len()]);
                assert(symbols@[a]@ == spec_symbols(dd0)[a - synth.len()]);
                assert(symbols@[b]@ == spec_symbols(dd0)[b - synth.len()]);
            }
            assert forall|a: int|
                0 <= a < symbols@.len() implies (#[trigger] symbols@[a])@.span.wf() && symbols@[a]@.span.start
                == symbols@[a]@.span.end by {
                if a < synth.len() {
                    assert(symbols@[a] == synth[a]);
                } else {
                    assert(symbols@[a] == dd0[a - synth.len()]);
                    assert(symbols@[a]@ == spec_symbols(dd0)[a - synth.len()]);
                    assert(spec_symbols(dd0)[a - synth.len()] == spec_dedup(
                        spec_caps(caps@),
                        Set::empty(),
                    )[a - synth.len()]);
                }
            }
        }
        Ok(symbols)
    }
}

} // verus!
