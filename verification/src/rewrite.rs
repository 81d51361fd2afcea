//! The reference rewriter: locates cross-reference commands
//! (`\input`, `\include`, `\includegraphics`, and any command whose name
//! begins with `bibliography`) on a line of document text and rewrites each
//! brace-delimited path argument by replacing `/` with `__`, leaving the
//! command name, any bracket-delimited options, and all surrounding text
//! byte-for-byte unchanged.
//!
//! The grammar is matched by an explicit left-to-right scan with single-level
//! brace and bracket spans: a malformed construct is simply not matched and
//! passes through unmodified.

use vstd::prelude::*;

use crate::flatten::is_tex_name;
use crate::text::{
    find_byte, find_from, is_word_byte, join_with, lemma_find_from, lemma_join_with_push,
    push_range, word_byte, BACKSLASH, CARRIAGE_RETURN, LBRACE, LBRACKET, NEWLINE, RBRACE, RBRACKET,
    SLASH, UNDERSCORE,
};

verus! {

/// The end of the run of word characters that starts at `i`.
pub open spec fn word_run_end(s: Seq<u8>, i: int) -> int
    decreases s.len() - i,
{
    if i < 0 || i >= s.len() {
        i
    } else if is_word_byte(s[i]) {
        word_run_end(s, i + 1)
    } else {
        i
    }
}

pub proof fn lemma_word_run_end(s: Seq<u8>, i: int)
    requires
        0 <= i <= s.len(),
    ensures
        i <= word_run_end(s, i) <= s.len(),
        forall|j: int| i <= j < word_run_end(s, i) ==> is_word_byte(s[j]),
        word_run_end(s, i) == s.len() || !is_word_byte(s[word_run_end(s, i)]),
    decreases s.len() - i,
{
    if i < s.len() && is_word_byte(s[i]) {
        lemma_word_run_end(s, i + 1);
    }
}

/// A maximal word run is pinned down by its bounds.
pub proof fn lemma_word_run_end_witness(s: Seq<u8>, i: int, e: int)
    requires
        0 <= i <= e <= s.len(),
        forall|j: int| i <= j < e ==> is_word_byte(s[j]),
        e == s.len() || !is_word_byte(s[e]),
    ensures
        word_run_end(s, i) == e,
    decreases e - i,
{
    if i < e {
        lemma_word_run_end_witness(s, i + 1, e);
    }
}

pub open spec fn input_token() -> Seq<u8> {
    seq!['i' as u8, 'n' as u8, 'p' as u8, 'u' as u8, 't' as u8]
}

pub open spec fn include_token() -> Seq<u8> {
    seq!['i' as u8, 'n' as u8, 'c' as u8, 'l' as u8, 'u' as u8, 'd' as u8, 'e' as u8]
}

pub open spec fn includegraphics_token() -> Seq<u8> {
    seq![
        'i' as u8,
        'n' as u8,
        'c' as u8,
        'l' as u8,
        'u' as u8,
        'd' as u8,
        'e' as u8,
        'g' as u8,
        'r' as u8,
        'a' as u8,
        'p' as u8,
        'h' as u8,
        'i' as u8,
        'c' as u8,
        's' as u8,
    ]
}

pub open spec fn bibliography_token() -> Seq<u8> {
    seq![
        'b' as u8,
        'i' as u8,
        'b' as u8,
        'l' as u8,
        'i' as u8,
        'o' as u8,
        'g' as u8,
        'r' as u8,
        'a' as u8,
        'p' as u8,
        'h' as u8,
        'y' as u8,
    ]
}

/// Whether the word run `s[j..e]` is a recognized command name: one of the
/// exact tokens, or any identifier beginning with `bibliography`.
pub open spec fn token_ok(s: Seq<u8>, j: int, e: int) -> bool {
    let tok = s.subrange(j, e);
    ||| tok == input_token()
    ||| tok == include_token()
    ||| tok == includegraphics_token()
    ||| (e - j >= 12 && s.subrange(j, j + 12) == bibliography_token())
}

/// The spans of one recognized occurrence: the path argument lies at
/// `[path_start, path_end)` and the whole occurrence ends at `end`
/// (one past its closing brace).
pub struct MatchSpans {
    pub path_start: int,
    pub path_end: int,
    pub end: int,
}

/// Tries to recognize one occurrence of the command grammar at position `i`,
/// which must hold a backslash: a recognized command name as a maximal word
/// run, an optional bracket span (closed by the first `]`), then a brace
/// span (closed by the first `}`).
pub open spec fn try_match(s: Seq<u8>, i: int) -> Option<MatchSpans> {
    if !(0 <= i < s.len()) || s[i] != BACKSLASH {
        None
    } else {
        let e = word_run_end(s, i + 1);
        if !token_ok(s, i + 1, e) {
            None
        } else if e < s.len() && s[e] == LBRACKET {
            match find_from(s, e + 1, RBRACKET) {
                None => None,
                Some(c) => if c + 1 < s.len() && s[c + 1] == LBRACE {
                    match find_from(s, c + 2, RBRACE) {
                        None => None,
                        Some(p) => Some(MatchSpans { path_start: c + 2, path_end: p, end: p + 1 }),
                    }
                } else {
                    None
                },
            }
        } else if e < s.len() && s[e] == LBRACE {
            match find_from(s, e + 1, RBRACE) {
                None => None,
                Some(p) => Some(MatchSpans { path_start: e + 1, path_end: p, end: p + 1 }),
            }
        } else {
            None
        }
    }
}

pub proof fn lemma_try_match_bounds(s: Seq<u8>, i: int)
    requires
        try_match(s, i) is Some,
    ensures
        try_match(s, i) matches Some(m) && 0 <= i < m.path_start <= m.path_end < m.end <= s.len()
            && m.end == m.path_end + 1 && s[m.path_end] == RBRACE,
{
    let e = word_run_end(s, i + 1);
    lemma_word_run_end(s, i + 1);
    if e < s.len() && s[e] == LBRACKET {
        lemma_find_from(s, e + 1, RBRACKET);
        let c = find_from(s, e + 1, RBRACKET).unwrap();
        lemma_find_from(s, c + 2, RBRACE);
    } else {
        lemma_find_from(s, e + 1, RBRACE);
    }
}

/// The path argument with every `/` replaced by `__`.
pub open spec fn flatten_fragment(s: Seq<u8>) -> Seq<u8>
    decreases s.len(),
{
    if s.len() == 0 {
        Seq::empty()
    } else {
        (if s[0] == SLASH {
            seq![UNDERSCORE, UNDERSCORE]
        } else {
            seq![s[0]]
        }) + flatten_fragment(s.skip(1))
    }
}

pub proof fn lemma_flatten_fragment_push(s: Seq<u8>, x: u8)
    ensures
        flatten_fragment(s.push(x)) == flatten_fragment(s) + (if x == SLASH {
            seq![UNDERSCORE, UNDERSCORE]
        } else {
            seq![x]
        }),
    decreases s.len(),
{
    let piece = if x == SLASH {
        seq![UNDERSCORE, UNDERSCORE]
    } else {
        seq![x]
    };
    if s.len() == 0 {
        assert(s.push(x)[0] == x);
        assert(s.push(x).skip(1) =~= Seq::<u8>::empty());
        assert(flatten_fragment(Seq::<u8>::empty()) == Seq::<u8>::empty());
        assert(flatten_fragment(s.push(x)) =~= piece);
        assert(flatten_fragment(s) + piece =~= piece);
    } else {
        assert(s.push(x)[0] == s[0]);
        assert(s.push(x).skip(1) =~= s.skip(1).push(x));
        lemma_flatten_fragment_push(s.skip(1), x);
        let head = if s[0] == SLASH {
            seq![UNDERSCORE, UNDERSCORE]
        } else {
            seq![s[0]]
        };
        assert(flatten_fragment(s.push(x)) == head + (flatten_fragment(s.skip(1)) + piece));
        assert(head + (flatten_fragment(s.skip(1)) + piece) =~= (head + flatten_fragment(s.skip(1)))
            + piece);
    }
}

/// One recognized occurrence, rewritten: everything from the backslash
/// through the opening brace verbatim, then the flattened path, then the
/// closing brace.
pub open spec fn rewritten_match(s: Seq<u8>, i: int, m: MatchSpans) -> Seq<u8> {
    s.subrange(i, m.path_start) + flatten_fragment(s.subrange(m.path_start, m.path_end)) + seq![
        RBRACE,
    ]
}

/// The rewrite of the line suffix that starts at `i`: occurrences are found
/// left to right and do not overlap; all text outside them is unchanged.
pub open spec fn rewrite_from(s: Seq<u8>, i: int) -> Seq<u8>
    decreases s.len() - i when 0 <= i <= s.len()
{
    if i >= s.len() {
        Seq::empty()
    } else {
        match try_match(s, i) {
            Some(m) => if i < m.end <= s.len() && i <= m.path_start <= m.path_end <= s.len() {
                rewritten_match(s, i, m) + rewrite_from(s, m.end)
            } else {
                seq![s[i]] + rewrite_from(s, i + 1)
            },
            None => seq![s[i]] + rewrite_from(s, i + 1),
        }
    }
}

/// The rewrite of one whole line.
pub open spec fn rewrite_line(s: Seq<u8>) -> Seq<u8> {
    rewrite_from(s, 0)
}

/// The spans of one recognized occurrence, as machine indices.
pub struct MatchSpot {
    pub path_start: usize,
    pub path_end: usize,
    pub end: usize,
}

fn word_run_to(s: &Vec<u8>, i: usize) -> (e: usize)
    requires
        i <= s@.len(),
    ensures
        e == word_run_end(s@, i as int),
        i <= e <= s@.len(),
{
    proof {
        lemma_word_run_end(s@, i as int);
    }
    let mut j = i;
    while j < s.len() && word_byte(s[j])
        invariant
            i <= j <= s@.len(),
            word_run_end(s@, i as int) == word_run_end(s@, j as int),
        decreases s@.len() - j,
    {
        j = j + 1;
    }
    j
}

fn bytes_eq_range(s: &Vec<u8>, start: usize, end: usize, pat: &Vec<u8>) -> (r: bool)
    requires
        start <= end <= s@.len(),
    ensures
        r == (s@.subrange(start as int, end as int) == pat@),
{
    proof {
        assert(s@.subrange(start as int, end as int).len() == end - start);
    }
    if end - start != pat.len() {
        return false;
    }
    let mut k: usize = 0;
    while k < pat.len()
        invariant
            start <= end <= s@.len(),
            end - start == pat@.len(),
            k <= pat@.len(),
            forall|m: int| 0 <= m < k ==> s@[start + m] == pat@[m],
        decreases pat@.len() - k,
    {
        if s[start + k] != pat[k] {
            proof {
                assert(s@.subrange(start as int, end as int)[k as int] == s@[start + k]);
            }
            return false;
        }
        k = k + 1;
    }
    proof {
        assert(s@.subrange(start as int, end as int) =~= pat@);
    }
    true
}

fn input_pattern() -> (v: Vec<u8>)
    ensures
        v@ == input_token(),
{
    let mut v: Vec<u8> = Vec::new();
    v.push('i' as u8);
    v.push('n' as u8);
    v.push('p' as u8);
    v.push('u' as u8);
    v.push('t' as u8);
    proof {
        assert(v@ =~= input_token());
    }
    v
}

fn include_pattern() -> (v: Vec<u8>)
    ensures
        v@ == include_token(),
{
    let mut v: Vec<u8> = Vec::new();
    v.push('i' as u8);
    v.push('n' as u8);
    v.push('c' as u8);
    v.push('l' as u8);
    v.push('u' as u8);
    v.push('d' as u8);
    v.push('e' as u8);
    proof {
        assert(v@ =~= include_token());
    }
    v
}

fn includegraphics_pattern() -> (v: Vec<u8>)
    ensures
        v@ == includegraphics_token(),
{
    let mut v = include_pattern();
    v.push('g' as u8);
    v.push('r' as u8);
    v.push('a' as u8);
    v.push('p' as u8);
    v.push('h' as u8);
    v.push('i' as u8);
    v.push('c' as u8);
    v.push('s' as u8);
    proof {
        assert(v@ =~= includegraphics_token());
    }
    v
}

fn bibliography_pattern() -> (v: Vec<u8>)
    ensures
        v@ == bibliography_token(),
{
    let mut v: Vec<u8> = Vec::new();
    v.push('b' as u8);
    v.push('i' as u8);
    v.push('b' as u8);
    v.push('l' as u8);
    v.push('i' as u8);
    v.push('o' as u8);
    v.push('g' as u8);
    v.push('r' as u8);
    v.push('a' as u8);
    v.push('p' as u8);
    v.push('h' as u8);
    v.push('y' as u8);
    proof {
        assert(v@ =~= bibliography_token());
    }
    v
}

fn token_check(s: &Vec<u8>, j: usize, e: usize) -> (r: bool)
    requires
        j <= e <= s@.len(),
    ensures
        r == token_ok(s@, j as int, e as int),
{
    if bytes_eq_range(s, j, e, &input_pattern()) {
        return true;
    }
    if bytes_eq_range(s, j, e, &include_pattern()) {
        return true;
    }
    if bytes_eq_range(s, j, e, &includegraphics_pattern()) {
        return true;
    }
    if e - j >= 12 && bytes_eq_range(s, j, j + 12, &bibliography_pattern()) {
        return true;
    }
    false
}

fn try_match_at(s: &Vec<u8>, i: usize) -> (r: Option<MatchSpot>)
    requires
        i < s@.len(),
        s@[i as int] == BACKSLASH,
    ensures
        r matches Some(m) ==> (try_match(s@, i as int) matches Some(sm) && sm.path_start
            == m.path_start && sm.path_end == m.path_end && sm.end == m.end),
        r is None ==> try_match(s@, i as int) is None,
{
    let n = s.len();
    let e = word_run_to(s, i + 1);
    if !token_check(s, i + 1, e) {
        return None;
    }
    if e < n && s[e] == LBRACKET {
        match find_byte(s, e + 1, RBRACKET) {
            None => None,
            Some(c) => {
                proof {
                    lemma_find_from(s@, e + 1, RBRACKET);
                }
                if c + 1 < n && s[c + 1] == LBRACE {
                    match find_byte(s, c + 2, RBRACE) {
                        None => None,
                        Some(p) => {
                            proof {
                                lemma_find_from(s@, c + 2, RBRACE);
                            }
                            Some(MatchSpot { path_start: c + 2, path_end: p, end: p + 1 })
                        },
                    }
                } else {
                    None
                }
            },
        }
    } else if e < n && s[e] == LBRACE {
        match find_byte(s, e + 1, RBRACE) {
            None => None,
            Some(p) => {
                proof {
                    lemma_find_from(s@, e + 1, RBRACE);
                }
                Some(MatchSpot { path_start: e + 1, path_end: p, end: p + 1 })
            },
        }
    } else {
        None
    }
}

/// Appends `flatten_fragment(s[start..end])` to `out`.
fn push_flattened(out: &mut Vec<u8>, s: &Vec<u8>, start: usize, end: usize)
    requires
        start <= end <= s@.len(),
    ensures
        final(out)@ == old(out)@ + flatten_fragment(s@.subrange(start as int, end as int)),
{
    let mut k = start;
    proof {
        assert(s@.subrange(start as int, start as int) =~= Seq::<u8>::empty());
    }
    while k < end
        invariant
            start <= k <= end <= s@.len(),
            out@ == old(out)@ + flatten_fragment(s@.subrange(start as int, k as int)),
        decreases end - k,
    {
        proof {
            assert(s@.subrange(start as int, k + 1) =~= s@.subrange(start as int, k as int).push(
                s@[k as int],
            ));
            lemma_flatten_fragment_push(s@.subrange(start as int, k as int), s@[k as int]);
        }
        if s[k] == SLASH {
            out.push(UNDERSCORE);
            out.push(UNDERSCORE);
        } else {
            out.push(s[k]);
        }
        k = k + 1;
    }
}

/// Rewrites the path arguments of every recognized cross-reference command
/// on one line, scanning left to right; all other text is unchanged.
pub fn replace_imports(line: &Vec<u8>) -> (r: Vec<u8>)
    ensures
        r@ == rewrite_line(line@),
{
    let ghost s = line@;
    let mut out: Vec<u8> = Vec::new();
    let mut i: usize = 0;
    while i < line.len()
        invariant
            s == line@,
            i <= s.len(),
            rewrite_line(s) == out@ + rewrite_from(s, i as int),
        decreases s.len() - i,
    {
        let ghost out0 = out@;
        if line[i] == BACKSLASH {
            match try_match_at(line, i) {
                Some(m) => {
                    proof {
                        lemma_try_match_bounds(s, i as int);
                    }
                    push_range(&mut out, line, i, m.path_start);
                    push_flattened(&mut out, line, m.path_start, m.path_end);
                    out.push(RBRACE);
                    proof {
                        let sm = try_match(s, i as int).unwrap();
                        assert(rewrite_from(s, i as int) == rewritten_match(s, i as int, sm)
                            + rewrite_from(s, sm.end));
                        assert(out@ =~= out0 + rewritten_match(s, i as int, sm));
                        assert(out0 + (rewritten_match(s, i as int, sm) + rewrite_from(s, sm.end))
                            =~= (out0 + rewritten_match(s, i as int, sm)) + rewrite_from(
                            s,
                            sm.end,
                        ));
                    }
                    i = m.end;
                },
                None => {
                    out.push(line[i]);
                    proof {
                        assert(out0 + (seq![s[i as int]] + rewrite_from(s, i + 1)) =~= (out0 + seq![
                            s[i as int],
                        ]) + rewrite_from(s, i + 1));
                        assert(out@ =~= out0 + seq![s[i as int]]);
                    }
                    i = i + 1;
                },
            }
        } else {
            out.push(line[i]);
            proof {
                assert(out0 + (seq![s[i as int]] + rewrite_from(s, i + 1)) =~= (out0 + seq![
                    s[i as int],
                ]) + rewrite_from(s, i + 1));
                assert(out@ =~= out0 + seq![s[i as int]]);
            }
            i = i + 1;
        }
    }
    proof {
        assert(rewrite_line(s) =~= out@ + Seq::<u8>::empty());
        assert(out@ + Seq::<u8>::empty() =~= out@);
    }
    out
}

/// The pieces of `s[i..]` split at every newline byte; one more piece than
/// there are newlines.
pub open spec fn split_nl_from(s: Seq<u8>, i: int) -> Seq<Seq<u8>>
    decreases s.len() - i when 0 <= i <= s.len()
{
    match find_from(s, i, NEWLINE) {
        Some(p) => if i <= p < s.len() {
            seq![s.subrange(i, p)] + split_nl_from(s, p + 1)
        } else {
            seq![s.subrange(i, s.len() as int)]
        },
        None => seq![s.subrange(i, s.len() as int)],
    }
}

/// Removes one trailing carriage return, so that a `\r\n` line ending is
/// treated as a line terminator.
pub open spec fn strip_cr(l: Seq<u8>) -> Seq<u8> {
    if l.len() > 0 && l[l.len() - 1] == CARRIAGE_RETURN {
        l.drop_last()
    } else {
        l
    }
}

/// The lines of a document: split at every newline, each piece that was
/// terminated by a newline loses one trailing carriage return, and an empty
/// final piece (a trailing newline) yields no line of its own.
pub open spec fn doc_lines(s: Seq<u8>) -> Seq<Seq<u8>> {
    let ps = split_nl_from(s, 0);
    let body = ps.drop_last().map_values(|l: Seq<u8>| strip_cr(l));
    if ps.last().len() == 0 {
        body
    } else {
        body.push(ps.last())
    }
}

/// The rewrite of a whole document: every line rewritten, lines rejoined
/// with a single newline. A trailing newline of the input is not preserved.
pub open spec fn spec_rewrite_document(s: Seq<u8>) -> Seq<u8> {
    join_with(doc_lines(s).map_values(|l: Seq<u8>| rewrite_line(l)), seq![NEWLINE])
}

/// Rewrites every line of a document-source text and rejoins the lines with
/// a single newline.
pub fn rewrite_document(content: &Vec<u8>) -> (r: Vec<u8>)
    ensures
        r@ == spec_rewrite_document(content@),
{
    let ghost s = content@;
    let mut out: Vec<u8> = Vec::new();
    let mut i: usize = 0;
    let mut first: bool = true;
    let ghost mut done: Seq<Seq<u8>> = Seq::empty();
    proof {
        assert(Seq::<Seq<u8>>::empty() + split_nl_from(s, 0) =~= split_nl_from(s, 0));
        assert(done.map_values(|l: Seq<u8>| rewrite_line(strip_cr(l))) =~= Seq::<Seq<u8>>::empty());
    }
    loop
        invariant
            s == content@,
            i <= s.len(),
            first <==> done.len() == 0,
            split_nl_from(s, 0) == done + split_nl_from(s, i as int),
            out@ == join_with(
                done.map_values(|l: Seq<u8>| rewrite_line(strip_cr(l))),
                seq![NEWLINE],
            ),
        ensures
            s == content@,
            i <= s.len(),
            first <==> done.len() == 0,
            find_from(s, i as int, NEWLINE) is None,
            split_nl_from(s, 0) == done + split_nl_from(s, i as int),
            out@ == join_with(
                done.map_values(|l: Seq<u8>| rewrite_line(strip_cr(l))),
                seq![NEWLINE],
            ),
        decreases s.len() - i,
    {
        let ghost done0 = done;
        let ghost out0 = out@;
        match find_byte(content, i, NEWLINE) {
            None => {
                break ;
            },
            Some(p) => {
                let n = content.len();
                proof {
                    lemma_find_from(s, i as int, NEWLINE);
                    assert(p < n);
                }
                let line_end = if p > i && content[p - 1] == CARRIAGE_RETURN {
                    p - 1
                } else {
                    p
                };
                let mut piece: Vec<u8> = Vec::new();
                push_range(&mut piece, content, i, line_end);
                let rew = replace_imports(&piece);
                if first {
                    first = false;
                } else {
                    out.push(NEWLINE);
                }
                push_range(&mut out, &rew, 0, rew.len());
                proof {
                    let raw = s.subrange(i as int, p as int);
                    done = done.push(raw);
                    assert(strip_cr(raw) =~= s.subrange(i as int, line_end as int));
                    assert(piece@ =~= Seq::<u8>::empty() + s.subrange(i as int, line_end as int));
                    assert(rew@ == rewrite_line(strip_cr(raw)));
                    assert(rew@.subrange(0, rew@.len() as int) =~= rew@);
                    // the split of the remainder peels off exactly this piece
                    assert(split_nl_from(s, i as int) == seq![raw] + split_nl_from(s, p + 1));
                    assert(done0 + (seq![raw] + split_nl_from(s, p + 1)) =~= done + split_nl_from(
                        s,
                        p + 1,
                    ));
                    // the join grows by one separator and the rewritten line
                    let f = |l: Seq<u8>| rewrite_line(strip_cr(l));
                    assert(done.map_values(f) =~= done0.map_values(f).push(f(raw)));
                    lemma_join_with_push(done0.map_values(f), seq![NEWLINE], f(raw));
                    if done0.len() == 0 {
                        assert(out@ =~= Seq::<u8>::empty() + rew@);
                        assert(out@ =~= join_with(done.map_values(f), seq![NEWLINE]));
                    } else {
                        assert(out@ =~= (out0 + seq![NEWLINE]) + rew@);
                        assert(join_with(done.map_values(f), seq![NEWLINE]) =~= (out0 + seq![
                            NEWLINE,
                        ]) + rew@);
                    }
                }
                i = p + 1;
            },
        }
    }
    // the final piece: kept verbatim unless it is empty
    proof {
        assert(split_nl_from(s, i as int) =~= seq![s.subrange(i as int, s.len() as int)]);
    }
    if i < content.len() {
        let mut piece: Vec<u8> = Vec::new();
        push_range(&mut piece, content, i, content.len());
        let rew = replace_imports(&piece);
        if !first {
            out.push(NEWLINE);
        }
        push_range(&mut out, &rew, 0, rew.len());
        proof {
            let last = s.subrange(i as int, s.len() as int);
            let ps = split_nl_from(s, 0);
            assert(ps =~= done + seq![last]);
            assert(ps.last() == last);
            assert(last.len() > 0);
            assert(ps.drop_last() =~= done);
            let f = |l: Seq<u8>| rewrite_line(strip_cr(l));
            let g = |l: Seq<u8>| rewrite_line(l);
            assert(piece@ =~= Seq::<u8>::empty() + last);
            assert(rew@ == rewrite_line(last));
            assert(rew@.subrange(0, rew@.len() as int) =~= rew@);
            let lines = doc_lines(s);
            assert(lines =~= done.map_values(|l: Seq<u8>| strip_cr(l)).push(last));
            assert(lines.map_values(g) =~= done.map_values(f).push(rewrite_line(last)));
            lemma_join_with_push(done.map_values(f), seq![NEWLINE], rewrite_line(last));
        }
        out
    } else {
        proof {
            let last = s.subrange(i as int, s.len() as int);
            let ps = split_nl_from(s, 0);
            assert(ps =~= done + seq![last]);
            assert(ps.last() == last);
            assert(last.len() == 0);
            assert(ps.drop_last() =~= done);
            let f = |l: Seq<u8>| rewrite_line(strip_cr(l));
            let g = |l: Seq<u8>| rewrite_line(l);
            let lines = doc_lines(s);
            assert(lines =~= done.map_values(|l: Seq<u8>| strip_cr(l)));
            assert(lines.map_values(g) =~= done.map_values(f));
        }
        out
    }
}

/// Produces the output content for one discovered file: document-source
/// files (by their `tex` extension) are rewritten line by line, every other
/// file's bytes pass through unchanged, bit for bit.
pub fn process_content(file_name: &Vec<u8>, content: Vec<u8>) -> (r: Vec<u8>)
    ensures
        is_tex_name(file_name@) ==> r@ == spec_rewrite_document(content@),
        !is_tex_name(file_name@) ==> r@ == content@,
{
    if crate::flatten::has_tex_extension(file_name) {
        rewrite_document(&content)
    } else {
        content
    }
}

} // verus!
