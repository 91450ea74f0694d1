//! The name of a track: the stem of the file name that its path ends in.

use vstd::prelude::*;

verus! {

/// The position of the last `c` in `s`, or -1 where `s` holds none.
pub open spec fn last_index_of(s: Seq<char>, c: char) -> int
    decreases s.len(),
{
    if s.len() == 0 {
        -1
    } else if s.last() == c {
        s.len() - 1
    } else {
        last_index_of(s.drop_last(), c)
    }
}

/// What follows the last `/` of a path; the whole path where it holds none.
pub open spec fn last_segment(path: Seq<char>) -> Seq<char> {
    path.subrange(last_index_of(path, '/') + 1, path.len() as int)
}

/// The file name of a path: its last segment, where separators and `.`
/// segments at the end are passed over. A path that ends in `..`, that is
/// only `.`, or that has no segment at all has none.
pub open spec fn file_name(path: Seq<char>) -> Option<Seq<char>>
    decreases path.len(),
{
    if path.len() == 0 {
        None
    } else if path.last() == '/' {
        file_name(path.drop_last())
    } else if last_segment(path) == seq!['.'] {
        if path.len() == 1 {
            None
        } else {
            file_name(path.drop_last())
        }
    } else if last_segment(path) == seq!['.', '.'] {
        None
    } else {
        Some(last_segment(path))
    }
}

/// The stem of a file name: what stands before its last `.`; the whole name
/// where it holds no `.` or only one at its start.
pub open spec fn file_stem(name: Seq<char>) -> Seq<char> {
    let dot = last_index_of(name, '.');
    if dot <= 0 {
        name
    } else {
        name.subrange(0, dot)
    }
}

/// The name under which the track at `path` appears in the table.
pub open spec fn track_name_of(path: Seq<char>) -> Option<Seq<char>> {
    match file_name(path) {
        Some(name) => Some(file_stem(name)),
        None => None,
    }
}

/// `k` is the last index of `c` once `c` stands there and nowhere behind it.
proof fn lemma_last_index_of(s: Seq<char>, c: char, k: int)
    requires
        -1 <= k < s.len(),
        k >= 0 ==> s[k] == c,
        forall|j: int| k < j < s.len() ==> s[j] != c,
    ensures
        last_index_of(s, c) == k,
    decreases s.len(),
{
    if s.len() > 0 && k < s.len() - 1 {
        lemma_last_index_of(s.drop_last(), c, k);
    }
}

/// The characters of a string, in order.
fn chars_of(s: &str) -> (v: Vec<char>)
    ensures
        v@ == s@,
{
    broadcast use vstd::string::group_string_axioms;

    let mut v: Vec<char> = Vec::new();
    for c in it: s.chars()
        invariant
            it.seq() == s@,
            v@ == s@.take(it.index() as int),
    {
        v.push(c);
        assert(s@.take(it.index() + 1) =~= s@.take(it.index() as int).push(c));
    }
    assert(s@.take(s@.len() as int) =~= s@);
    v
}

/// The track's name: the stem of the file name of `path`, or `None` where the
/// path has no file name.
pub fn track_name(path: &str) -> (name: Option<String>)
    ensures
        match name {
            Some(n) => track_name_of(path@) == Some(n@),
            None => track_name_of(path@) is None,
        },
{
    let chars = chars_of(path);
    let ghost full = path@;
    let mut end: usize = chars.len();
    assert(full.take(end as int) =~= full);
    // pass over separators and `.` segments at the end
    while end > 0 && (chars[end - 1] == '/' || (end >= 2 && chars[end - 1] == '.' && chars[end - 2]
        == '/'))
        invariant
            chars@ == full,
            end <= chars.len(),
            file_name(full) == file_name(full.take(end as int)),
        decreases end,
    {
        proof {
            let cur = full.take(end as int);
            assert(cur.drop_last() =~= full.take(end - 1));
            if full[end - 1] != '/' {
                assert(cur[end - 2] == '/');
                assert(cur.subrange(end - 1, end as int) =~= seq!['.']);
                lemma_last_index_of(cur, '/', end - 2);
            }
        }
        end = end - 1;
    }
    if end == 0 {
        return None;
    }
    let ghost cur = full.take(end as int);
    let mut cut: usize = end;
    while cut > 0 && chars[cut - 1] != '/'
        invariant
            chars@ == full,
            cut <= end <= chars.len(),
            forall|j: int| cut <= j < end ==> full[j] != '/',
        decreases cut,
    {
        cut = cut - 1;
    }
    proof {
        lemma_last_index_of(cur, '/', cut - 1);
        assert(last_segment(cur) =~= full.subrange(cut as int, end as int));
    }
    let ghost seg = full.subrange(cut as int, end as int);
    assert(seg.len() == end - cut && seg.len() > 0);
    assert(seg[0] == full[cut as int]);
    if end - cut == 1 && chars[cut] == '.' {
        assert(seg =~= seq!['.']);
        assert(cut == 0);
        return None;
    }
    if end - cut == 2 && chars[cut] == '.' && chars[cut + 1] == '.' {
        assert(seg[1] == full[cut + 1]);
        assert(seg =~= seq!['.', '.']);
        return None;
    }
    proof {
        if seg == seq!['.'] {
            assert(seg.len() == 1 && seg[0] == '.');
        }
        if seg == seq!['.', '.'] {
            assert(seg.len() == 2 && seg[0] == '.' && seg[1] == '.');
            assert(seg[1] == full[cut + 1]);
        }
        assert(file_name(full) == Some(seg));
    }
    let mut dot: usize = end;
    while dot > cut && chars[dot - 1] != '.'
        invariant
            chars@ == full,
            cut <= dot <= end <= chars.len(),
            forall|j: int| dot <= j < end ==> full[j] != '.',
        decreases dot,
    {
        dot = dot - 1;
    }
    proof {
        assert forall|j: int| dot - cut - 1 < j < seg.len() implies seg[j] != '.' by {
            assert(seg[j] == full[cut + j]);
        }
        if dot > cut {
            assert(seg[dot - cut - 1] == full[dot - 1]);
        }
        lemma_last_index_of(seg, '.', dot - cut - 1);
    }
    let stem_end: usize = if dot <= cut + 1 {
        end
    } else {
        dot - 1
    };
    proof {
        if dot > cut + 1 {
            assert(seg.subrange(0, dot - cut - 1) =~= full.subrange(cut as int, stem_end as int));
        }
        assert(file_stem(seg) == full.subrange(cut as int, stem_end as int));
    }
    Some(path.substring_char(cut, stem_end).to_owned())
}

} // verus!
