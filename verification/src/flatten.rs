//! The path flattener: maps a segmented project path to a single flat file
//! name by joining the segments below the project root with `__`, and
//! classifies an input or output path as a directory or an archive by its
//! file-name extension.

use vstd::prelude::*;

use crate::text::{
    join_with, lemma_join_with_push, lower_byte, push_range, to_lower_byte, DOT, UNDERSCORE,
};

verus! {

/// The supported kinds of input and output locations.
#[derive(Debug, PartialEq, Eq, Structural)]
pub enum FileType {
    Directory,
    Zip,
}

/// A path names neither a directory nor a supported archive.
#[derive(Debug, PartialEq, Eq)]
pub enum FileTypeError {
    /// Holds the bytes of the offending extension.
    InvalidExtension(Vec<u8>),
}

/// A path segment cannot be represented as text, so no safe flat name exists.
#[derive(Debug, PartialEq, Eq)]
pub struct EncodingError;

/// The index of the last `.` in a file name, if any.
pub open spec fn last_dot(s: Seq<u8>) -> Option<int>
    decreases s.len(),
{
    if s.len() == 0 {
        None
    } else if s[s.len() - 1] == DOT {
        Some(s.len() - 1)
    } else {
        last_dot(s.drop_last())
    }
}

pub proof fn lemma_last_dot(s: Seq<u8>)
    ensures
        match last_dot(s) {
            Some(p) => 0 <= p < s.len() && s[p] == DOT && (forall|j: int|
                p < j < s.len() ==> s[j] != DOT),
            None => forall|j: int| 0 <= j < s.len() ==> s[j] != DOT,
        },
    decreases s.len(),
{
    if s.len() > 0 && s[s.len() - 1] != DOT {
        lemma_last_dot(s.drop_last());
        assert(forall|j: int| 0 <= j < s.len() - 1 ==> s.drop_last()[j] == s[j]);
    }
}

/// The extension of a file name: the part after the last `.`, unless there is
/// no `.` or the name is a dot file (its only `.` is the leading byte).
pub open spec fn spec_extension_of(name: Seq<u8>) -> Option<Seq<u8>> {
    match last_dot(name) {
        None => None,
        Some(p) => if p == 0 {
            None
        } else {
            Some(name.subrange(p + 1, name.len() as int))
        },
    }
}

/// Whether an extension, lower-cased byte by byte, reads `zip`.
pub open spec fn is_zip_ext(e: Seq<u8>) -> bool {
    e.len() == 3 && lower_byte(e[0]) == 'z' as u8 && lower_byte(e[1]) == 'i' as u8 && lower_byte(
        e[2],
    ) == 'p' as u8
}

/// Whether a file name carries the document-source extension `tex`.
pub open spec fn is_tex_name(name: Seq<u8>) -> bool {
    spec_extension_of(name) matches Some(e) && e == seq!['t' as u8, 'e' as u8, 'x' as u8]
}

fn find_last_dot(name: &Vec<u8>) -> (r: Option<usize>)
    ensures
        (r matches Some(p) ==> last_dot(name@) == Some(p as int)),
        (r is None ==> last_dot(name@) is None),
{
    let mut j = name.len();
    proof {
        assert(name@.subrange(0, name@.len() as int) =~= name@);
    }
    while j > 0
        invariant
            j <= name@.len(),
            last_dot(name@) == last_dot(name@.subrange(0, j as int)),
        decreases j,
    {
        if name[j - 1] == DOT {
            proof {
                let pre = name@.subrange(0, j as int);
                assert(pre[pre.len() - 1] == name@[j - 1]);
            }
            return Some(j - 1);
        }
        proof {
            let pre = name@.subrange(0, j as int);
            assert(pre[pre.len() - 1] == name@[j - 1]);
            assert(pre.drop_last() =~= name@.subrange(0, j - 1));
        }
        j = j - 1;
    }
    None
}

/// Classifies a path by the extension of its final segment: no extension
/// means a directory, `zip` in any letter case means an archive, and any
/// other extension is rejected.
pub fn path_file_type(file_name: &Vec<u8>) -> (r: Result<FileType, FileTypeError>)
    ensures
        spec_extension_of(file_name@) is None ==> r == Ok::<FileType, FileTypeError>(
            FileType::Directory,
        ),
        spec_extension_of(file_name@) matches Some(e) ==> ((is_zip_ext(e) ==> r == Ok::<
            FileType,
            FileTypeError,
        >(FileType::Zip)) && (!is_zip_ext(e) ==> (r matches Err(err) && err matches
        FileTypeError::InvalidExtension(x) && x@ == e))),
{
    match find_last_dot(file_name) {
        None => Ok(FileType::Directory),
        Some(p) => {
            if p == 0 {
                Ok(FileType::Directory)
            } else {
                proof {
                    lemma_last_dot(file_name@);
                }
                let n = file_name.len();
                if n - p - 1 == 3 && to_lower_byte(file_name[p + 1]) == 'z' as u8 && to_lower_byte(
                    file_name[p + 2],
                ) == 'i' as u8 && to_lower_byte(file_name[p + 3]) == 'p' as u8 {
                    proof {
                        let e = file_name@.subrange(p + 1, n as int);
                        assert(e[0] == file_name@[p + 1]);
                        assert(e[1] == file_name@[p + 2]);
                        assert(e[2] == file_name@[p + 3]);
                    }
                    Ok(FileType::Zip)
                } else {
                    let mut ext: Vec<u8> = Vec::new();
                    push_range(&mut ext, file_name, p + 1, n);
                    proof {
                        let e = file_name@.subrange(p + 1, n as int);
                        assert(ext@ =~= e);
                        if is_zip_ext(e) {
                            assert(file_name@[p + 1] == e[0]);
                            assert(file_name@[p + 2] == e[1]);
                            assert(file_name@[p + 3] == e[2]);
                        }
                    }
                    Err(FileTypeError::InvalidExtension(ext))
                }
            }
        },
    }
}

/// Whether a file name carries the document-source extension `tex`.
pub fn has_tex_extension(name: &Vec<u8>) -> (r: bool)
    ensures
        r == is_tex_name(name@),
{
    match find_last_dot(name) {
        None => false,
        Some(p) => {
            if p == 0 {
                false
            } else {
                proof {
                    lemma_last_dot(name@);
                }
                let n = name.len();
                let r = n - p - 1 == 3 && name[p + 1] == 't' as u8 && name[p + 2] == 'e' as u8
                    && name[p + 3] == 'x' as u8;
                proof {
                    let e = name@.subrange(p + 1, n as int);
                    assert(e.len() == n - p - 1);
                    if n - p - 1 == 3 {
                        assert(e[0] == name@[p + 1]);
                        assert(e[1] == name@[p + 2]);
                        assert(e[2] == name@[p + 3]);
                        if r {
                            assert(e =~= seq!['t' as u8, 'e' as u8, 'x' as u8]);
                        }
                    }
                }
                r
            }
        },
    }
}

/// The views of a sequence of decoded segments.
pub open spec fn seg_views(segs: Seq<Option<Vec<u8>>>) -> Seq<Seq<u8>> {
    segs.map_values(
        |o: Option<Vec<u8>>|
            match o {
                Option::Some(v) => v@,
                Option::None => Seq::<u8>::empty(),
            },
    )
}

/// The flat name of a path: its segments below the project root, joined
/// with `__`.
pub open spec fn spec_flat_name(segs: Seq<Option<Vec<u8>>>, root_count: int) -> Seq<u8> {
    join_with(seg_views(segs.skip(root_count)), seq![UNDERSCORE, UNDERSCORE])
}

/// Flattens a path given as its segments, the first `root_count` of which
/// belong to the project root. A segment is `None` when it could not be
/// decoded as text; any such segment below the root is a hard failure, since
/// no safe flat name exists for it.
pub fn flatten_path(segments: &Vec<Option<Vec<u8>>>, root_count: usize) -> (r: Result<
    Vec<u8>,
    EncodingError,
>)
    requires
        root_count < segments@.len(),
    ensures
        (forall|k: int|
            root_count <= k < segments@.len() ==> (#[trigger] segments@[k]) is Some) ==> (
        r matches Ok(f) && f@ == spec_flat_name(segments@, root_count as int)),
        (exists|k: int|
            root_count <= k < segments@.len() && (#[trigger] segments@[k]) is None) ==> r is Err,
        (forall|k: int|
            root_count <= k < segments@.len() ==> ((#[trigger] segments@[k]) matches Some(v)
                && v@.len() > 0)) ==> (r matches Ok(f) && f@.len() > 0),
{
    let ghost sep = seq![UNDERSCORE, UNDERSCORE];
    let mut out: Vec<u8> = Vec::new();
    let mut k = root_count;
    proof {
        assert(seg_views(segments@.subrange(root_count as int, root_count as int)) =~= Seq::<
            Seq<u8>,
        >::empty());
    }
    while k < segments.len()
        invariant
            root_count <= k <= segments@.len(),
            forall|m: int| root_count <= m < k ==> (#[trigger] segments@[m]) is Some,
            out@ == join_with(
                seg_views(segments@.subrange(root_count as int, k as int)),
                seq![UNDERSCORE, UNDERSCORE],
            ),
        decreases segments@.len() - k,
    {
        match &segments[k] {
            Option::None => {
                return Err(EncodingError);
            },
            Option::Some(seg) => {
                let ghost prev = segments@.subrange(root_count as int, k as int);
                if k > root_count {
                    out.push(UNDERSCORE);
                    out.push(UNDERSCORE);
                }
                push_range(&mut out, seg, 0, seg.len());
                proof {
                    assert(seg@.subrange(0, seg@.len() as int) =~= seg@);
                    assert(segments@.subrange(root_count as int, k + 1) =~= prev.push(
                        segments@[k as int],
                    ));
                    assert(seg_views(prev.push(segments@[k as int])) =~= seg_views(prev).push(
                        seg@,
                    ));
                    lemma_join_with_push(seg_views(prev), seq![UNDERSCORE, UNDERSCORE], seg@);
                    assert(seg_views(prev).len() == k - root_count);
                    if k > root_count {
                        assert(out@ =~= join_with(seg_views(prev), seq![UNDERSCORE, UNDERSCORE])
                            + seq![UNDERSCORE, UNDERSCORE] + seg@);
                    } else {
                        assert(out@ =~= seg@);
                    }
                }
                k = k + 1;
            },
        }
    }
    proof {
        assert(segments@.subrange(root_count as int, segments@.len() as int) =~= segments@.skip(
            root_count as int,
        ));
        let rel = segments@.skip(root_count as int);
        if forall|m: int|
            root_count <= m < segments@.len() ==> ((#[trigger] segments@[m]) matches Some(v)
                && v@.len() > 0) {
            assert(segments@[root_count as int] matches Some(v) && v@.len() > 0);
            assert(seg_views(rel).len() == rel.len());
            assert(rel[0] == segments@[root_count as int]);
            assert(seg_views(rel)[0].len() > 0);
            assert(join_with(seg_views(rel), seq![UNDERSCORE, UNDERSCORE]).len() > 0);
        }
    }
    Ok(out)
}

} // verus!
