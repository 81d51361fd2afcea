//! Byte-level text utilities shared by the path flattener and the
//! reference rewriter: byte constants, character classes, searching for a
//! byte, and joining byte strings with a separator.

use vstd::prelude::*;

verus! {

pub const BACKSLASH: u8 = 92;
pub const LBRACKET: u8 = 91;
pub const RBRACKET: u8 = 93;
pub const LBRACE: u8 = 123;
pub const RBRACE: u8 = 125;
pub const SLASH: u8 = 47;
pub const UNDERSCORE: u8 = 95;
pub const NEWLINE: u8 = 10;
pub const CARRIAGE_RETURN: u8 = 13;
pub const DOT: u8 = 46;

/// An ASCII word character: a letter, a digit, or an underscore.
pub open spec fn is_word_byte(b: u8) -> bool {
    (48 <= b && b <= 57) || (65 <= b && b <= 90) || (97 <= b && b <= 122) || b == UNDERSCORE
}

pub fn word_byte(b: u8) -> (r: bool)
    ensures
        r == is_word_byte(b),
{
    (48 <= b && b <= 57) || (65 <= b && b <= 90) || (97 <= b && b <= 122) || b == UNDERSCORE
}

/// ASCII lower-casing of a single byte.
pub open spec fn lower_byte(b: u8) -> u8 {
    if 65 <= b && b <= 90 {
        (b + 32) as u8
    } else {
        b
    }
}

pub fn to_lower_byte(b: u8) -> (r: u8)
    ensures
        r == lower_byte(b),
{
    if 65 <= b && b <= 90 {
        b + 32
    } else {
        b
    }
}

/// The first index at or after `i` where `b` occurs in `s`, if any.
pub open spec fn find_from(s: Seq<u8>, i: int, b: u8) -> Option<int>
    decreases s.len() - i,
{
    if i < 0 || i >= s.len() {
        None
    } else if s[i] == b {
        Some(i)
    } else {
        find_from(s, i + 1, b)
    }
}

pub proof fn lemma_find_from(s: Seq<u8>, i: int, b: u8)
    requires
        0 <= i <= s.len(),
    ensures
        match find_from(s, i, b) {
            Some(p) => i <= p < s.len() && s[p] == b && (forall|j: int| i <= j < p ==> s[j] != b),
            None => forall|j: int| i <= j < s.len() ==> s[j] != b,
        },
    decreases s.len() - i,
{
    if i < s.len() && s[i] != b {
        lemma_find_from(s, i + 1, b);
    }
}

/// The first occurrence of `b` is uniquely determined by a witness.
pub proof fn lemma_find_from_witness(s: Seq<u8>, i: int, b: u8, p: int)
    requires
        0 <= i <= p < s.len(),
        s[p] == b,
        forall|j: int| i <= j < p ==> s[j] != b,
    ensures
        find_from(s, i, b) == Some(p),
    decreases p - i,
{
    if i < p {
        lemma_find_from_witness(s, i + 1, b, p);
    }
}

pub fn find_byte(s: &Vec<u8>, from: usize, b: u8) -> (r: Option<usize>)
    requires
        from <= s@.len(),
    ensures
        (r matches Some(p) ==> find_from(s@, from as int, b) == Some(p as int)),
        (r is None ==> find_from(s@, from as int, b) is None),
{
    let mut j = from;
    while j < s.len()
        invariant
            from <= j <= s@.len(),
            find_from(s@, from as int, b) == find_from(s@, j as int, b),
        decreases s@.len() - j,
    {
        if s[j] == b {
            return Some(j);
        }
        j = j + 1;
    }
    None
}

/// The join of a sequence of byte strings with a separator.
pub open spec fn join_with(pieces: Seq<Seq<u8>>, sep: Seq<u8>) -> Seq<u8>
    decreases pieces.len(),
{
    if pieces.len() == 0 {
        Seq::empty()
    } else if pieces.len() == 1 {
        pieces[0]
    } else {
        pieces[0] + sep + join_with(pieces.skip(1), sep)
    }
}

/// Appending one more piece extends the join by a separator and that piece.
pub proof fn lemma_join_with_push(pieces: Seq<Seq<u8>>, sep: Seq<u8>, x: Seq<u8>)
    ensures
        join_with(pieces.push(x), sep) == if pieces.len() == 0 {
            x
        } else {
            join_with(pieces, sep) + sep + x
        },
    decreases pieces.len(),
{
    if pieces.len() == 0 {
        assert(pieces.push(x).len() == 1);
        assert(pieces.push(x)[0] == x);
    } else if pieces.len() == 1 {
        assert(pieces.push(x).skip(1) =~= seq![x]);
        assert(join_with(pieces.push(x), sep) == pieces[0] + sep + join_with(seq![x], sep));
        assert(join_with(seq![x], sep) == x);
    } else {
        assert(pieces.push(x).skip(1) =~= pieces.skip(1).push(x));
        lemma_join_with_push(pieces.skip(1), sep, x);
        assert(pieces.skip(1).len() > 0);
        assert(join_with(pieces.push(x), sep) == pieces[0] + sep + join_with(
            pieces.skip(1).push(x),
            sep,
        ));
        assert(pieces[0] + sep + (join_with(pieces.skip(1), sep) + sep + x) =~= (pieces[0] + sep
            + join_with(pieces.skip(1), sep)) + sep + x);
    }
}

/// Appends `s[start..end]` to `out`.
pub fn push_range(out: &mut Vec<u8>, s: &Vec<u8>, start: usize, end: usize)
    requires
        start <= end <= s@.len(),
    ensures
        final(out)@ == old(out)@ + s@.subrange(start as int, end as int),
{
    let mut k = start;
    while k < end
        invariant
            start <= k <= end <= s@.len(),
            out@ == old(out)@ + s@.subrange(start as int, k as int),
        decreases end - k,
    {
        out.push(s[k]);
        proof {
            assert(s@.subrange(start as int, k + 1) =~= s@.subrange(start as int, k as int).push(
                s@[k as int],
            ));
        }
        k = k + 1;
    }
    proof {
        assert(out@ =~= old(out)@ + s@.subrange(start as int, end as int));
    }
}

} // verus!
