//! Laws of the rewriter, stated over the specification functions and proved
//! once and for all: lines without a recognized command are untouched,
//! options fragments survive a rewrite byte for byte, and flattening a path
//! argument turns each `/` into exactly one `__` delimiter.

use vstd::prelude::*;

use crate::flatten::{seg_views, spec_flat_name};
use crate::rewrite::{
    bibliography_token, flatten_fragment, include_token, includegraphics_token, input_token,
    lemma_word_run_end_witness, rewrite_from, rewrite_line, rewritten_match, token_ok, try_match,
    MatchSpans,
};
use crate::text::{
    is_word_byte, join_with, lemma_find_from_witness, BACKSLASH, LBRACE, LBRACKET, RBRACE,
    RBRACKET, SLASH, UNDERSCORE,
};

verus! {

proof fn lemma_rewrite_from_no_match(s: Seq<u8>, i: int)
    requires
        0 <= i <= s.len(),
        forall|k: int| i <= k < s.len() ==> try_match(s, k) is None,
    ensures
        rewrite_from(s, i) == s.subrange(i, s.len() as int),
    decreases s.len() - i,
{
    if i < s.len() {
        lemma_rewrite_from_no_match(s, i + 1);
        assert(rewrite_from(s, i) == seq![s[i]] + rewrite_from(s, i + 1));
        assert(seq![s[i]] + s.subrange(i + 1, s.len() as int) =~= s.subrange(i, s.len() as int));
    } else {
        assert(s.subrange(i, i) =~= Seq::<u8>::empty());
    }
}

/// Law: a line on which no position begins a recognized command is rewritten
/// to itself, byte for byte.
pub proof fn lemma_non_match_invariance(s: Seq<u8>)
    requires
        forall|k: int| 0 <= k < s.len() ==> try_match(s, k) is None,
    ensures
        rewrite_line(s) == s,
{
    lemma_rewrite_from_no_match(s, 0);
    assert(s.subrange(0, s.len() as int) =~= s);
}

/// The number of occurrences of the byte `b` in `s`.
pub open spec fn count_byte(s: Seq<u8>, b: u8) -> nat
    decreases s.len(),
{
    if s.len() == 0 {
        0
    } else {
        (if s[0] == b {
            1nat
        } else {
            0nat
        }) + count_byte(s.skip(1), b)
    }
}

/// The number of positions where `__` occurs in `s` (overlapping
/// occurrences each count).
pub open spec fn count_double_underscore(s: Seq<u8>) -> nat
    decreases s.len(),
{
    if s.len() < 2 {
        0
    } else {
        (if s[0] == UNDERSCORE && s[1] == UNDERSCORE {
            1nat
        } else {
            0nat
        }) + count_double_underscore(s.skip(1))
    }
}

proof fn lemma_count_byte_cons(x: u8, t: Seq<u8>, b: u8)
    ensures
        count_byte(seq![x] + t, b) == (if x == b {
            1nat
        } else {
            0nat
        }) + count_byte(t, b),
{
    let c = seq![x] + t;
    assert(c.len() == 1 + t.len());
    assert(c[0] == x);
    assert(c.skip(1) =~= t);
}

proof fn lemma_cdu_cons(x: u8, t: Seq<u8>)
    ensures
        count_double_underscore(seq![x] + t) == (if t.len() > 0 && x == UNDERSCORE && t[0]
            == UNDERSCORE {
            1nat
        } else {
            0nat
        }) + count_double_underscore(t),
{
    let c = seq![x] + t;
    assert(c.len() == 1 + t.len());
    if t.len() == 0 {
        assert(c.len() < 2);
    } else {
        assert(c[0] == x);
        assert(c[1] == t[0]);
        assert(c.skip(1) =~= t);
    }
}

proof fn lemma_flatten_first(t: Seq<u8>)
    ensures
        t.len() == 0 ==> flatten_fragment(t).len() == 0,
        t.len() > 0 ==> flatten_fragment(t).len() > 0 && flatten_fragment(t)[0] == (if t[0]
            == SLASH {
            UNDERSCORE
        } else {
            t[0]
        }),
{
    if t.len() > 0 {
        if t[0] == SLASH {
            assert(flatten_fragment(t)[0] == seq![UNDERSCORE, UNDERSCORE][0]);
        } else {
            assert(flatten_fragment(t)[0] == seq![t[0]][0]);
        }
    }
}

/// Law (one half): flattening removes every `/` from a path argument.
pub proof fn lemma_flatten_no_slash(path: Seq<u8>)
    ensures
        count_byte(flatten_fragment(path), SLASH) == 0,
    decreases path.len(),
{
    if path.len() > 0 {
        let t = path.skip(1);
        lemma_flatten_no_slash(t);
        let rest = flatten_fragment(t);
        if path[0] == SLASH {
            assert(flatten_fragment(path) == seq![UNDERSCORE, UNDERSCORE] + rest);
            assert(seq![UNDERSCORE, UNDERSCORE] + rest =~= seq![UNDERSCORE] + (seq![UNDERSCORE]
                + rest));
            lemma_count_byte_cons(UNDERSCORE, seq![UNDERSCORE] + rest, SLASH);
            lemma_count_byte_cons(UNDERSCORE, rest, SLASH);
        } else {
            assert(flatten_fragment(path) == seq![path[0]] + rest);
            lemma_count_byte_cons(path[0], rest, SLASH);
        }
    }
}

/// No two adjacent bytes of `s` are both drawn from `_` and `/`; this rules
/// out exactly the path arguments on which flattening can run delimiters
/// together (an existing `__`, a `_` touching a `/`, or `//`).
pub open spec fn no_adjacent_delim_bytes(s: Seq<u8>) -> bool {
    forall|j: int|
        0 <= j < s.len() - 1 ==> !(((#[trigger] s[j]) == UNDERSCORE || s[j] == SLASH) && (s[j + 1]
            == UNDERSCORE || s[j + 1] == SLASH))
}

/// Law (other half): for a path argument whose bytes never run `_` and `/`
/// together, the flattened argument holds exactly one `__` occurrence per
/// original `/` separator.
pub proof fn lemma_flatten_delimiter_count(path: Seq<u8>)
    requires
        no_adjacent_delim_bytes(path),
    ensures
        count_double_underscore(flatten_fragment(path)) == count_byte(path, SLASH),
    decreases path.len(),
{
    if path.len() > 0 {
        let t = path.skip(1);
        assert(no_adjacent_delim_bytes(t)) by {
            assert(forall|j: int| 0 <= j < t.len() ==> t[j] == path[j + 1]);
        }
        lemma_flatten_delimiter_count(t);
        lemma_flatten_first(t);
        let rest = flatten_fragment(t);
        if path[0] == SLASH {
            // the byte after a `/` is neither `_` nor `/`, so the two new
            // underscores meet no third
            assert(flatten_fragment(path) == seq![UNDERSCORE, UNDERSCORE] + rest);
            assert(seq![UNDERSCORE, UNDERSCORE] + rest =~= seq![UNDERSCORE] + (seq![UNDERSCORE]
                + rest));
            lemma_cdu_cons(UNDERSCORE, seq![UNDERSCORE] + rest);
            lemma_cdu_cons(UNDERSCORE, rest);
            assert((seq![UNDERSCORE] + rest)[0] == UNDERSCORE);
            if t.len() > 0 {
                assert(t[0] == path[1]);
                assert(!(t[0] == UNDERSCORE || t[0] == SLASH));
                assert(rest[0] != UNDERSCORE);
            }
        } else if path[0] == UNDERSCORE {
            assert(flatten_fragment(path) == seq![UNDERSCORE] + rest);
            lemma_cdu_cons(UNDERSCORE, rest);
            if t.len() > 0 {
                assert(t[0] == path[1]);
                assert(!(t[0] == UNDERSCORE || t[0] == SLASH));
                assert(rest[0] != UNDERSCORE);
            }
        } else {
            assert(flatten_fragment(path) == seq![path[0]] + rest);
            lemma_cdu_cons(path[0], rest);
        }
    }
}

proof fn lemma_join_with_no_byte(pieces: Seq<Seq<u8>>, sep: Seq<u8>, b: u8)
    requires
        forall|i: int, j: int|
            0 <= i < pieces.len() && 0 <= j < pieces[i].len() ==> (#[trigger] pieces[i][j]) != b,
        forall|j: int| 0 <= j < sep.len() ==> sep[j] != b,
    ensures
        forall|j: int|
            0 <= j < join_with(pieces, sep).len() ==> #[trigger] join_with(pieces, sep)[j] != b,
    decreases pieces.len(),
{
    if pieces.len() > 1 {
        assert(forall|i: int, j: int|
            0 <= i < pieces.skip(1).len() && 0 <= j < pieces.skip(1)[i].len() ==> (
            #[trigger] pieces.skip(1)[i][j]) != b) by {
            assert(forall|i: int|
                0 <= i < pieces.skip(1).len() ==> #[trigger] pieces.skip(1)[i] == pieces[i + 1]);
        }
        lemma_join_with_no_byte(pieces.skip(1), sep, b);
        let rest = join_with(pieces.skip(1), sep);
        assert forall|j: int|
            0 <= j < join_with(pieces, sep).len() implies #[trigger] join_with(pieces, sep)[j]
            != b by {
            let head = pieces[0];
            assert(join_with(pieces, sep) == head + sep + rest);
            if j < head.len() {
                assert(join_with(pieces, sep)[j] == head[j]);
            } else if j < head.len() + sep.len() {
                assert(join_with(pieces, sep)[j] == sep[j - head.len()]);
            } else {
                assert(join_with(pieces, sep)[j] == rest[j - head.len() - sep.len()]);
            }
        }
    }
}

/// Law: a flat name never contains the path-separator byte `/`, so it is
/// safe as a single directory entry: the segments of a real path are free
/// of separators, and the join adds only underscores.
pub proof fn lemma_flat_name_no_separator(segs: Seq<Option<Vec<u8>>>, root_count: int)
    requires
        0 <= root_count <= segs.len(),
        forall|k: int|
            root_count <= k < segs.len() ==> ((#[trigger] segs[k]) matches Some(v) && forall|
                j: int,
            | 0 <= j < v@.len() ==> v@[j] != SLASH),
    ensures
        forall|j: int|
            0 <= j < spec_flat_name(segs, root_count).len()
                ==> #[trigger] spec_flat_name(segs, root_count)[j] != SLASH,
{
    let rel = segs.skip(root_count);
    let pieces = seg_views(rel);
    assert forall|i: int, j: int|
        0 <= i < pieces.len() && 0 <= j < pieces[i].len() implies (#[trigger] pieces[i][j])
        != SLASH by {
        assert(rel[i] == segs[i + root_count]);
        assert(segs[i + root_count] matches Some(v) && pieces[i] == v@);
    }
    assert(forall|j: int| 0 <= j < seq![UNDERSCORE, UNDERSCORE].len() ==> seq![
        UNDERSCORE,
        UNDERSCORE,
    ][j] != SLASH);
    lemma_join_with_no_byte(pieces, seq![UNDERSCORE, UNDERSCORE], SLASH);
}

/// A recognized command name: one of the three exact tokens, or any name
/// beginning with `bibliography`.
pub open spec fn is_command_name(cmd: Seq<u8>) -> bool {
    ||| cmd == input_token()
    ||| cmd == include_token()
    ||| cmd == includegraphics_token()
    ||| (cmd.len() >= 12 && cmd.subrange(0, 12) == bibliography_token())
}

/// Law: for every recognized command name, rewriting the line
/// `\NAME{PATH}` keeps the command name byte for byte and flattens exactly
/// the path argument.
pub proof fn lemma_command_name_fidelity(cmd: Seq<u8>, path: Seq<u8>)
    requires
        is_command_name(cmd),
        forall|j: int| 0 <= j < cmd.len() ==> is_word_byte(#[trigger] cmd[j]),
        forall|j: int| 0 <= j < path.len() ==> path[j] != RBRACE,
    ensures
        ({
            let prefix = seq![BACKSLASH] + cmd + seq![LBRACE];
            rewrite_line(prefix + path + seq![RBRACE]) == prefix + flatten_fragment(path) + seq![
                RBRACE,
            ]
        }),
{
    let n = cmd.len() as int;
    let prefix = seq![BACKSLASH] + cmd + seq![LBRACE];
    let line = prefix + path + seq![RBRACE];
    let p = 2 + n + path.len() as int;
    assert(prefix.len() == 2 + n);
    assert(line.len() == p + 1);

    assert(line[0] == BACKSLASH);
    assert forall|j: int| 1 <= j < 1 + n implies is_word_byte(line[j]) by {
        assert(line[j] == cmd[j - 1]);
    }
    assert(line[1 + n] == LBRACE);
    assert(!is_word_byte(LBRACE));
    lemma_word_run_end_witness(line, 1, 1 + n);

    assert(line.subrange(1, 1 + n) =~= cmd);
    if cmd.len() >= 12 && cmd.subrange(0, 12) == bibliography_token() {
        assert(line.subrange(1, 13) =~= cmd.subrange(0, 12));
    }
    assert(token_ok(line, 1, 1 + n));

    // the first `}` closes the path span
    assert forall|j: int| 2 + n <= j < p implies line[j] != RBRACE by {
        assert(line[j] == path[j - 2 - n]);
    }
    assert(line[p] == RBRACE);
    lemma_find_from_witness(line, 2 + n, RBRACE, p);

    let m = MatchSpans { path_start: 2 + n, path_end: p, end: p + 1 };
    assert(try_match(line, 0) == Some(m));
    assert(rewrite_from(line, 0) == rewritten_match(line, 0, m) + rewrite_from(line, p + 1));
    assert(rewrite_from(line, p + 1) == Seq::<u8>::empty());
    assert(line.subrange(0, 2 + n) =~= prefix);
    assert(line.subrange(2 + n, p) =~= path);
    assert(rewritten_match(line, 0, m) == prefix + flatten_fragment(path) + seq![RBRACE]);
    assert((prefix + flatten_fragment(path) + seq![RBRACE]) + Seq::<u8>::empty() =~= prefix
        + flatten_fragment(path) + seq![RBRACE]);
}

/// Law: command names are matched on exact token boundaries: `\input`
/// followed by one more word character is not a recognized command, so a
/// line of the shape `\inputW{PATH}` is rewritten to itself for any word
/// character `W` and any path fragment free of backslashes.
pub proof fn lemma_command_name_boundary(w: u8, path: Seq<u8>)
    requires
        is_word_byte(w),
        forall|j: int| 0 <= j < path.len() ==> path[j] != BACKSLASH,
    ensures
        ({
            let line = seq![BACKSLASH] + input_token() + seq![w, LBRACE] + path + seq![RBRACE];
            rewrite_line(line) == line
        }),
{
    let tok = input_token();
    let line = seq![BACKSLASH] + tok + seq![w, LBRACE] + path + seq![RBRACE];
    assert(tok.len() == 5);
    assert(line.len() == 9 + path.len());

    // position 0 carries the backslash, but the word run after it reads
    // `inputW`, which is no recognized token
    assert(line[0] == BACKSLASH);
    assert forall|j: int| 1 <= j < 7 implies is_word_byte(line[j]) by {
        if j < 6 {
            assert(line[j] == tok[j - 1]);
            assert(is_word_byte(tok[j - 1]));
        } else {
            assert(line[j] == w);
        }
    }
    assert(line[7] == LBRACE);
    assert(!is_word_byte(LBRACE));
    lemma_word_run_end_witness(line, 1, 7);
    assert(line.subrange(1, 7).len() == 6);
    assert(!token_ok(line, 1, 7));
    assert(try_match(line, 0) is None);

    // no other position carries a backslash at all
    assert forall|k: int| 1 <= k < line.len() implies line[k] != BACKSLASH by {
        if k < 6 {
            assert(line[k] == tok[k - 1]);
            assert(tok[k - 1] != BACKSLASH);
        } else if k == 6 {
            assert(line[k] == w);
        } else if k == 7 {
            assert(line[k] == LBRACE);
        } else if k < line.len() - 1 {
            assert(line[k] == path[k - 8]);
        } else {
            assert(line[k] == RBRACE);
        }
    }
    assert forall|k: int| 0 <= k < line.len() implies try_match(line, k) is None by {
        if k > 0 {
            assert(line[k] != BACKSLASH);
        }
    }
    lemma_non_match_invariance(line);
}

/// Law: for any options fragment (no `]` inside) and any path argument (no
/// `}` inside), rewriting the line `\includegraphics[OPTS]{PATH}` preserves
/// the command name and `OPTS` byte for byte and flattens only `PATH`.
pub proof fn lemma_options_preserved(opts: Seq<u8>, path: Seq<u8>)
    requires
        forall|j: int| 0 <= j < opts.len() ==> opts[j] != RBRACKET,
        forall|j: int| 0 <= j < path.len() ==> path[j] != RBRACE,
    ensures
        ({
            let prefix = seq![BACKSLASH] + includegraphics_token() + seq![LBRACKET] + opts + seq![
                RBRACKET,
                LBRACE,
            ];
            rewrite_line(prefix + path + seq![RBRACE]) == prefix + flatten_fragment(path) + seq![
                RBRACE,
            ]
        }),
{
    let tok = includegraphics_token();
    let prefix = seq![BACKSLASH] + tok + seq![LBRACKET] + opts + seq![RBRACKET, LBRACE];
    let line = prefix + path + seq![RBRACE];
    let k = opts.len() as int;
    let p = 19 + k + path.len() as int;
    assert(tok.len() == 15);
    assert(prefix.len() == 19 + k);
    assert(line.len() == p + 1);
    assert(line[0] == BACKSLASH);
    assert forall|j: int| 1 <= j < 16 implies is_word_byte(line[j]) by {
        assert(line[j] == tok[j - 1]);
        assert(is_word_byte(tok[j - 1]));
    }
    assert(line[16] == LBRACKET);
    assert(!is_word_byte(LBRACKET));
    lemma_word_run_end_witness(line, 1, 16);

    assert(line.subrange(1, 16) =~= tok);
    assert(token_ok(line, 1, 16));

    // the first `]` closes the options span
    assert forall|j: int| 17 <= j < 17 + k implies line[j] != RBRACKET by {
        assert(line[j] == opts[j - 17]);
    }
    assert(line[17 + k] == RBRACKET);
    lemma_find_from_witness(line, 17, RBRACKET, 17 + k);

    assert(line[18 + k] == LBRACE);

    // the first `}` closes the path span
    assert forall|j: int| 19 + k <= j < p implies line[j] != RBRACE by {
        assert(line[j] == path[j - 19 - k]);
    }
    assert(line[p] == RBRACE);
    lemma_find_from_witness(line, 19 + k, RBRACE, p);

    let m = MatchSpans { path_start: 19 + k, path_end: p, end: p + 1 };
    assert(try_match(line, 0) == Some(m));
    assert(rewrite_from(line, 0) == rewritten_match(line, 0, m) + rewrite_from(line, p + 1));
    assert(rewrite_from(line, p + 1) == Seq::<u8>::empty());
    assert(line.subrange(0, 19 + k) =~= prefix);
    assert(line.subrange(19 + k, p) =~= path);
    assert(rewritten_match(line, 0, m) == prefix + flatten_fragment(path) + seq![RBRACE]);
    assert((prefix + flatten_fragment(path) + seq![RBRACE]) + Seq::<u8>::empty() =~= prefix
        + flatten_fragment(path) + seq![RBRACE]);
}

} // verus!
