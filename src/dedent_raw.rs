//! Removal of the common indentation from the raw fragments of a template literal.
use vstd::prelude::*;

use crate::text::{push_chars, text_chars};

verus! {

/// A line break: LF, U+2028 or U+2029 (a bare CR is not one).
pub open spec fn is_line_break(c: char) -> bool {
    c == '\n' || c == '\u{2028}' || c == '\u{2029}'
}

/// A character of indentation: a space or a tab.
pub open spec fn is_indent(c: char) -> bool {
    c == ' ' || c == '\t'
}

/// How many spaces and tabs stand between the line break that opened the current
/// line and position `i`, as long as nothing else stands there; `None` when the line
/// has already left its indentation, or when no line break precedes `i`.
pub open spec fn column(s: Seq<char>, i: int) -> Option<nat>
    decreases i,
{
    if i <= 0 || i > s.len() {
        None
    } else if is_line_break(s[i - 1]) {
        Some(0)
    } else if is_indent(s[i - 1]) {
        match column(s, i - 1) {
            Some(c) => Some(c + 1),
            None => None,
        }
    } else {
        None
    }
}

/// In fragment `k`, position `e` ends the indentation of a line that bears content:
/// a character other than a line break follows it, or the fragment ends there and an
/// interpolation hole follows.
pub open spec fn ends_content_indent(frags: Seq<Seq<char>>, k: int, e: int) -> bool {
    &&& 0 <= k < frags.len()
    &&& column(frags[k], e) is Some
    &&& if e < frags[k].len() {
        !is_indent(frags[k][e]) && !is_line_break(frags[k][e])
    } else {
        k + 1 < frags.len()
    }
}

/// `m` is the least indentation of the lines that bear content.
pub open spec fn is_level(frags: Seq<Seq<char>>, m: nat) -> bool {
    &&& exists|k: int, e: int| #[trigger]
        ends_content_indent(frags, k, e) && column(frags[k], e) == Some(m)
    &&& forall|k: int, e: int| #[trigger]
        ends_content_indent(frags, k, e) ==> m <= column(frags[k], e)->0
}

/// The indentation level of a template: the least indentation of its lines that bear
/// content, or `None` (unbounded) where there is no such line.
pub open spec fn indentation_level(frags: Seq<Seq<char>>) -> Option<nat> {
    if exists|m: nat| is_level(frags, m) {
        Some(choose|m: nat| is_level(frags, m))
    } else {
        None
    }
}

/// A column lies within the level (an unbounded level takes every column).
pub open spec fn within_level(c: nat, level: Option<nat>) -> bool {
    match level {
        Some(m) => c < m,
        None => true,
    }
}

/// The character at `i` is indentation that dedenting to `level` removes.
pub open spec fn is_trimmed(s: Seq<char>, level: Option<nat>, i: int) -> bool {
    &&& is_indent(s[i])
    &&& column(s, i) is Some
    &&& within_level(column(s, i)->0, level)
}

/// The characters of `s[..n]` that dedenting to `level` keeps.
pub open spec fn trimmed_prefix(s: Seq<char>, level: Option<nat>, n: int) -> Seq<char>
    decreases n,
{
    if n <= 0 {
        Seq::empty()
    } else if is_trimmed(s, level, n - 1) {
        trimmed_prefix(s, level, n - 1)
    } else {
        trimmed_prefix(s, level, n - 1).push(s[n - 1])
    }
}

/// `s` dedented to `level`.
pub open spec fn trim_indentation(s: Seq<char>, level: Option<nat>) -> Seq<char> {
    trimmed_prefix(s, level, s.len() as int)
}

/// Every fragment of the template, dedented to the template's indentation level.
pub open spec fn dedented(frags: Seq<Seq<char>>) -> Seq<Seq<char>> {
    frags.map_values(|s: Seq<char>| trim_indentation(s, indentation_level(frags)))
}

/// The text of each fragment.
pub open spec fn fragment_texts(raw: Seq<&str>) -> Seq<Seq<char>> {
    raw.map_values(|s: &str| s@)
}

/// Number of positions in `a..b` whose character dedenting removes.
pub open spec fn trimmed_count(s: Seq<char>, level: Option<nat>, a: int, b: int) -> nat
    decreases b - a,
{
    if b <= a {
        0
    } else if is_trimmed(s, level, b - 1) {
        trimmed_count(s, level, a, b - 1) + 1
    } else {
        trimmed_count(s, level, a, b - 1)
    }
}

/// Within a run of indentation that starts right after a line break, the column counts
/// the characters of the run.
proof fn lemma_column_run(s: Seq<char>, p: int, e: int)
    requires
        0 < p <= e <= s.len(),
        is_line_break(s[p - 1]),
        forall|j: int| p <= j < e ==> is_indent(s[j]),
    ensures
        column(s, e) == Some((e - p) as nat),
    decreases e - p,
{
    if e > p {
        lemma_column_run(s, p, e - 1);
    }
}

/// Past a position that opens no indentation (the start of the fragment, or a
/// character that is no space or tab), no column is defined until the next line break.
proof fn lemma_column_none(s: Seq<char>, a: int, b: int)
    requires
        0 <= a <= b <= s.len(),
        forall|j: int| a <= j < b ==> !is_line_break(s[j]),
        a == 0 || a == b || !is_indent(s[a]),
    ensures
        forall|i: int| a < i <= b ==> column(s, i) is None,
    decreases b - a,
{
    if a < b {
        lemma_column_none(s, a, b - 1);
        assert forall|i: int| a < i <= b implies column(s, i) is None by {
            if i == b && b - 1 > a {
                assert(column(s, b - 1) is None);
            }
        }
    }
}

/// A defined column names the line break that opened the line, and the run of
/// indentation since.
proof fn lemma_column_some(s: Seq<char>, i: int)
    requires
        column(s, i) is Some,
    ensures
        0 < i <= s.len(),
        column(s, i)->0 < i,
        is_line_break(s[i - column(s, i)->0 - 1]),
        forall|j: int| i - column(s, i)->0 <= j < i ==> is_indent(s[j]),
    decreases i,
{
    if !is_line_break(s[i - 1]) {
        lemma_column_some(s, i - 1);
    }
}

/// Keeping every character of `a..b` extends the kept text by that stretch.
proof fn lemma_keep_stretch(s: Seq<char>, level: Option<nat>, a: int, b: int)
    requires
        0 <= a <= b <= s.len(),
        forall|i: int| a <= i < b ==> !is_trimmed(s, level, i),
    ensures
        trimmed_prefix(s, level, b) == trimmed_prefix(s, level, a) + s.subrange(a, b),
    decreases b - a,
{
    if a < b {
        lemma_keep_stretch(s, level, a, b - 1);
        assert(s.subrange(a, b) =~= s.subrange(a, b - 1).push(s[b - 1]));
    } else {
        assert(s.subrange(a, b) =~= Seq::<char>::empty());
    }
}

/// Removing every character of `a..b` leaves the kept text as it was.
proof fn lemma_drop_stretch(s: Seq<char>, level: Option<nat>, a: int, b: int)
    requires
        0 <= a <= b <= s.len(),
        forall|i: int| a <= i < b ==> is_trimmed(s, level, i),
    ensures
        trimmed_prefix(s, level, b) == trimmed_prefix(s, level, a),
    decreases b - a,
{
    if a < b {
        lemma_drop_stretch(s, level, a, b - 1);
    }
}

/// The kept text of `s[..n]` is `n` characters less the removed ones.
proof fn lemma_trimmed_prefix_len(s: Seq<char>, level: Option<nat>, n: int)
    requires
        0 <= n <= s.len(),
    ensures
        trimmed_prefix(s, level, n).len() + trimmed_count(s, level, 0, n) == n,
    decreases n,
{
    if n > 0 {
        lemma_trimmed_prefix_len(s, level, n - 1);
    }
}

/// No more positions are removed from `a..b` than it holds.
proof fn lemma_count_at_most_span(s: Seq<char>, level: Option<nat>, a: int, b: int)
    requires
        a <= b,
    ensures
        trimmed_count(s, level, a, b) <= b - a,
    decreases b - a,
{
    if b > a {
        lemma_count_at_most_span(s, level, a, b - 1);
    }
}

/// A stretch `c..b` with nothing removed adds nothing to the count.
proof fn lemma_count_untouched_tail(s: Seq<char>, level: Option<nat>, a: int, c: int, b: int)
    requires
        a <= c <= b,
        forall|i: int| c <= i < b ==> !is_trimmed(s, level, i),
    ensures
        trimmed_count(s, level, a, b) == trimmed_count(s, level, a, c),
    decreases b - c,
{
    if b > c {
        lemma_count_untouched_tail(s, level, a, c, b - 1);
    }
}

/// Dedenting never lengthens a fragment: the result is the fragment less the characters
/// that dedenting removes.
pub proof fn lemma_dedent_never_lengthens(frags: Seq<Seq<char>>, k: int)
    requires
        0 <= k < frags.len(),
    ensures
        dedented(frags)[k].len() == frags[k].len() - trimmed_count(
            frags[k],
            indentation_level(frags),
            0,
            frags[k].len() as int,
        ),
        dedented(frags)[k].len() <= frags[k].len(),
{
    lemma_trimmed_prefix_len(frags[k], indentation_level(frags), frags[k].len() as int);
}

/// On any line of a fragment (`p..q`, opened by a line break or by the start of the
/// fragment, with no line break inside), dedenting removes only spaces and tabs, no more
/// of them than the indentation level, and none at all on the line that opens the fragment.
pub proof fn lemma_dedent_line_bound(frags: Seq<Seq<char>>, k: int, p: int, q: int)
    requires
        0 <= k < frags.len(),
        0 <= p <= q <= frags[k].len(),
        p == 0 || is_line_break(frags[k][p - 1]),
        forall|j: int| p <= j < q ==> !is_line_break(frags[k][j]),
    ensures
        forall|i: int| p <= i < q && is_trimmed(frags[k], indentation_level(frags), i)
            ==> is_indent(frags[k][i]),
        p == 0 ==> trimmed_count(frags[k], indentation_level(frags), p, q) == 0,
        indentation_level(frags) is Some ==> trimmed_count(
            frags[k],
            indentation_level(frags),
            p,
            q,
        ) <= indentation_level(frags)->0,
{
    let s = frags[k];
    let level = indentation_level(frags);
    assert forall|i: int| p <= i < q && is_trimmed(s, level, i) implies p > 0 && column(s, i)
        == Some((i - p) as nat) by {
        lemma_column_some(s, i);
        let c = column(s, i)->0;
        if i - c - 1 < p - 1 {
            assert(is_indent(s[p - 1]));
        }
    }
    if p == 0 {
        lemma_count_untouched_tail(s, level, p, p, q);
    }
    if level is Some {
        let m = level->0;
        let c = if p + m < q { p + m } else { q };
        lemma_count_untouched_tail(s, level, p, c, q);
        lemma_count_at_most_span(s, level, p, c);
    }
}

/// The length, in characters, of the line break that stands at `i`; `None` where none does.
pub fn check_newline_at(s: &[char], i: usize) -> (r: Option<usize>)
    requires
        i <= s@.len(),
    ensures
        r == (if i < s@.len() && is_line_break(s@[i as int]) {
            Some(1usize)
        } else {
            None
        }),
{
    if i < s.len() && (s[i] == '\n' || s[i] == '\u{2028}' || s[i] == '\u{2029}') {
        Some(1)
    } else {
        None
    }
}

/// Whether a line break stands at `i`.
pub fn has_newline_at(s: &[char], i: usize) -> (r: bool)
    requires
        i <= s@.len(),
    ensures
        r == (i < s@.len() && is_line_break(s@[i as int])),
{
    check_newline_at(s, i).is_some()
}

/// The position just past the first line break at or after `from`; `None` when no line
/// break follows.
pub fn find_newline(s: &[char], from: usize) -> (r: Option<usize>)
    ensures
        match r {
            Some(p) => {
                &&& from < p <= s@.len()
                &&& is_line_break(s@[p - 1])
                &&& forall|j: int| from <= j < p - 1 ==> !is_line_break(s@[j])
            },
            None => forall|j: int| from <= j < s@.len() ==> !is_line_break(s@[j]),
        },
{
    let mut i: usize = from;
    while i < s.len()
        invariant
            from <= i,
            forall|j: int| from <= j < i && j < s@.len() ==> !is_line_break(s@[j]),
        decreases s@.len() - i,
    {
        if let Some(len) = check_newline_at(s, i) {
            return Some(i + len);
        }
        i += 1;
    }
    None
}

/// The end of the run of spaces and tabs that starts at `from`.
pub fn find_non_space(s: &[char], from: usize) -> (r: usize)
    ensures
        from > s@.len() ==> r == from,
        from <= s@.len() ==> {
            &&& from <= r <= s@.len()
            &&& forall|j: int| from <= j < r ==> is_indent(s@[j])
            &&& r == s@.len() || !is_indent(s@[r as int])
        },
{
    let mut i: usize = from;
    while i < s.len() && (s[i] == ' ' || s[i] == '\t')
        invariant
            from <= i,
            from <= s@.len() ==> i <= s@.len(),
            from > s@.len() ==> i == from,
            forall|j: int| from <= j < i ==> is_indent(s@[j]),
        decreases s@.len() - i,
    {
        i += 1;
    }
    i
}

/// The level that a measured minimum stands for (`None`: unbounded).
pub open spec fn level_of(level: Option<usize>) -> Option<nat> {
    match level {
        Some(l) => Some(l as nat),
        None => None,
    }
}

/// Every line bearing content that ends its indentation in a fragment before `k`, or in
/// fragment `k` at or before `last`, has been measured into `level`, and `level` is the
/// indentation of one of them (at fragment `wk`, position `we`).
spec fn measured(
    frags: Seq<Seq<char>>,
    level: Option<usize>,
    k: int,
    last: int,
    wk: int,
    we: int,
) -> bool {
    &&& forall|k2: int, e: int| #[trigger]
        ends_content_indent(frags, k2, e) && (k2 < k || (k2 == k && e <= last)) ==> {
            &&& level is Some
            &&& level->0 <= column(frags[k2], e)->0
        }
    &&& level is Some ==> {
        &&& ends_content_indent(frags, wk, we)
        &&& column(frags[wk], we) == Some(level->0 as nat)
    }
}

/// A least indentation over all lines bearing content is the template's level; without
/// such lines the level is unbounded.
proof fn lemma_measured_level(frags: Seq<Seq<char>>, level: Option<usize>, wk: int, we: int)
    requires
        measured(frags, level, frags.len() as int, -1, wk, we),
    ensures
        indentation_level(frags) == level_of(level),
{
    match level {
        Some(l) => {
            assert(is_level(frags, l as nat));
            let c = choose|x: nat| is_level(frags, x);
            assert(c == l as nat);
        },
        None => {
            assert forall|m: nat| !is_level(frags, m) by {
                if is_level(frags, m) {
                    let (k, e) = choose|k: int, e: int|
                        #[trigger] ends_content_indent(frags, k, e) && column(frags[k], e)
                            == Some(m);
                    assert(ends_content_indent(frags, k, e));
                }
            }
        },
    }
}

/// Dedents the raw fragments of one template literal (the text between its interpolation
/// holes, escapes undecoded): every line that follows a line break loses as many leading
/// spaces and tabs as the least indentation of the lines that bear content, or all of
/// them where it has fewer. A line bears content when something other than a line break
/// follows its indentation, or when an interpolation hole does.
pub fn dedent_raw(raw: &[&str]) -> (r: Vec<String>)
    ensures
        r@.len() == raw@.len(),
        forall|k: int| 0 <= k < raw@.len() ==> #[trigger] r@[k]@ == dedented(fragment_texts(raw@))[k],
{
    let ghost frags = fragment_texts(raw@);
    let mut texts: Vec<Vec<char>> = Vec::new();
    let mut level: Option<usize> = None;
    let ghost mut wk: int = 0;
    let ghost mut we: int = 0;
    let mut k: usize = 0;
    while k < raw.len()
        invariant
            k <= raw@.len(),
            frags == fragment_texts(raw@),
            texts@.len() == k,
            forall|j: int| 0 <= j < k ==> #[trigger] texts@[j]@ == frags[j],
            measured(frags, level, k as int, -1, wk, we),
        decreases raw@.len() - k,
    {
        let s = text_chars(raw[k]);
        assert(s@ == frags[k as int]);
        let mut last: usize = 0;
        loop
            invariant
                k < raw@.len(),
                frags == fragment_texts(raw@),
                s@ == frags[k as int],
                last <= s@.len(),
                last == 0 || last == s@.len() || !is_indent(s@[last as int]),
                measured(frags, level, k as int, last as int, wk, we),
            ensures
                last <= s@.len(),
                last == 0 || last == s@.len() || !is_indent(s@[last as int]),
                measured(frags, level, k as int, last as int, wk, we),
                forall|j: int| last <= j < s@.len() ==> !is_line_break(s@[j]),
            decreases s@.len() - last,
        {
            match find_newline(s.as_slice(), last) {
                None => break,
                Some(pos) => {
                    let end_pos = find_non_space(s.as_slice(), pos);
                    let len = end_pos - pos;
                    let has_content = if end_pos < s.len() {
                        !has_newline_at(s.as_slice(), end_pos)
                    } else {
                        raw.len() - k > 1
                    };
                    proof {
                        lemma_column_run(s@, pos as int, end_pos as int);
                        lemma_column_none(s@, last as int, pos - 1);
                        assert(has_content == ends_content_indent(frags, k as int, end_pos as int));
                    }
                    let ghost old_level = level;
                    if has_content {
                        let smaller = match level {
                            Some(l) => l > len,
                            None => true,
                        };
                        if smaller {
                            level = Some(len);
                            proof {
                                wk = k as int;
                                we = end_pos as int;
                            }
                        }
                    }
                    proof {
                        assert forall|k2: int, e: int| #[trigger]
                            ends_content_indent(frags, k2, e) && (k2 < k || (k2 == k && e
                                <= end_pos)) implies level is Some && level->0 <= column(
                            frags[k2],
                            e,
                        )->0 by {
                            if k2 == k && e > last && e < end_pos {
                                if e >= pos {
                                    lemma_column_run(s@, pos as int, e);
                                }
                            }
                        }
                    }
                    last = end_pos;
                },
            }
        }
        proof {
            lemma_column_none(s@, last as int, s@.len() as int);
        }
        texts.push(s);
        k += 1;
    }
    proof {
        lemma_measured_level(frags, level, wk, we);
    }
    let ghost lvl = indentation_level(frags);
    let mut out: Vec<String> = Vec::new();
    let mut k: usize = 0;
    while k < raw.len()
        invariant
            k <= raw@.len(),
            frags == fragment_texts(raw@),
            texts@.len() == raw@.len(),
            forall|j: int| 0 <= j < raw@.len() ==> #[trigger] texts@[j]@ == frags[j],
            lvl == indentation_level(frags),
            lvl == level_of(level),
            out@.len() == k,
            forall|j: int| 0 <= j < k ==> #[trigger] out@[j]@ == trim_indentation(frags[j], lvl),
        decreases raw@.len() - k,
    {
        let s = texts[k].as_slice();
        assert(s@ == frags[k as int]);
        let mut buf = String::new();
        let mut last: usize = 0;
        loop
            invariant
                k < raw@.len(),
                s@ == frags[k as int],
                lvl == level_of(level),
                last <= s@.len(),
                last == 0 || last == s@.len() || !is_indent(s@[last as int]),
                buf@ == trimmed_prefix(s@, lvl, last as int),
            ensures
                last <= s@.len(),
                last == 0 || last == s@.len() || !is_indent(s@[last as int]),
                buf@ == trimmed_prefix(s@, lvl, last as int),
                forall|j: int| last <= j < s@.len() ==> !is_line_break(s@[j]),
            decreases s@.len() - last,
        {
            match find_newline(s, last) {
                None => break,
                Some(pos) => {
                    push_chars(&mut buf, s, last, pos);
                    let end_pos = find_non_space(s, pos);
                    let len = end_pos - pos;
                    let cut = match level {
                        Some(l) => if len < l { len } else { l },
                        None => len,
                    };
                    let trimmed_pos = pos + cut;
                    push_chars(&mut buf, s, trimmed_pos, end_pos);
                    proof {
                        lemma_column_none(s@, last as int, pos - 1);
                        assert forall|i: int| last <= i < pos implies !is_trimmed(s@, lvl, i) by {
                            if i > last {
                                assert(column(s@, i) is None);
                            }
                        }
                        lemma_keep_stretch(s@, lvl, last as int, pos as int);
                        assert forall|i: int| pos <= i < end_pos implies is_trimmed(s@, lvl, i)
                            == (i < trimmed_pos) by {
                            lemma_column_run(s@, pos as int, i);
                        }
                        lemma_drop_stretch(s@, lvl, pos as int, trimmed_pos as int);
                        lemma_keep_stretch(s@, lvl, trimmed_pos as int, end_pos as int);
                    }
                    last = end_pos;
                },
            }
        }
        push_chars(&mut buf, s, last, s.len());
        proof {
            lemma_column_none(s@, last as int, s@.len() as int);
            assert forall|i: int| last <= i < s@.len() implies !is_trimmed(s@, lvl, i) by {
                if i > last {
                    assert(column(s@, i) is None);
                }
            }
            lemma_keep_stretch(s@, lvl, last as int, s@.len() as int);
        }
        out.push(buf);
        k += 1;
    }
    out
}

} // verus!
