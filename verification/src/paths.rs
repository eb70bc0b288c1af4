//! The name under which a local file is shared.

use vstd::prelude::*;

verus! {

/// Both `/` and `\` separate the components of a path.
pub open spec fn is_separator(c: char) -> bool {
    c == '/' || c == '\\'
}

/// The path without what ends it and names no further file: trailing
/// separators, and `.` components (a `.` at the start or after a separator).
pub open spec fn trim_tail(p: Seq<char>) -> Seq<char>
    decreases p.len(),
{
    if p.len() > 0 && (is_separator(p.last()) || (p.last() == '.' && (p.len() == 1 || is_separator(
        p[p.len() - 2],
    )))) {
        trim_tail(p.drop_last())
    } else {
        p
    }
}

/// The characters after the last separator.
pub open spec fn last_component(p: Seq<char>) -> Seq<char>
    decreases p.len(),
{
    if p.len() == 0 || is_separator(p.last()) {
        seq![]
    } else {
        last_component(p.drop_last()).push(p.last())
    }
}

/// The name under which the file at `p` is shared: its last component, once
/// trailing separators and `.` components are set aside; none when that is
/// empty, `.` or `..`.
pub open spec fn share_name_of(p: Seq<char>) -> Option<Seq<char>> {
    let c = last_component(trim_tail(p));
    if c.len() == 0 || c == seq!['.'] || c == seq!['.', '.'] {
        None
    } else {
        Some(c)
    }
}

proof fn lemma_last_component(q: Seq<char>, start: int)
    requires
        0 <= start <= q.len(),
        forall|j: int| start <= j < q.len() ==> !is_separator(#[trigger] q[j]),
        start == 0 || is_separator(q[start - 1]),
    ensures
        last_component(q) == q.subrange(start, q.len() as int),
    decreases q.len(),
{
    if q.len() > start {
        assert(!is_separator(q[q.len() - 1]));
        lemma_last_component(q.drop_last(), start);
        assert(q.drop_last().subrange(start, q.len() - 1).push(q.last()) =~= q.subrange(
            start,
            q.len() as int,
        ));
    } else {
        if q.len() > 0 {
            assert(q.last() == q[start - 1]);
        }
        assert(q.subrange(start, q.len() as int) =~= seq![]);
    }
}

/// A file's name, the part of a path after its last `/` or `\\`, is the name
/// it is shared under, whatever other characters it holds: for a name with
/// no `/` or `\\` that is not empty, `.` or `..`, the name alone and any path
/// that ends in a separator followed by it are shared under exactly that name.
pub proof fn law_file_name_is_shared(dir: Seq<char>, sep: char, name: Seq<char>)
    requires
        sep == '/' || sep == '\\',
        name.len() > 0,
        forall|i: int| 0 <= i < name.len() ==> #[trigger] name[i] != '/' && name[i] != '\\',
        name != seq!['.'],
        name != seq!['.', '.'],
    ensures
        share_name_of(dir + seq![sep] + name) == Some(name),
        share_name_of(name) == Some(name),
{
    let p = dir + seq![sep] + name;
    let n = p.len() as int;
    let start = dir.len() as int + 1;
    assert forall|j: int| start <= j < n implies !is_separator(#[trigger] p[j]) by {
        assert(p[j] == name[j - start]);
    }
    assert(p[start - 1] == sep);
    assert(p.last() == name[name.len() - 1]);
    if name.len() >= 2 {
        assert(p[n - 2] == name[name.len() - 2]);
    } else {
        assert(name =~= seq![name[0]]);
    }
    assert(trim_tail(p) == p);
    lemma_last_component(p, start);
    assert(p.subrange(start, n) =~= name);
    assert forall|j: int| 0 <= j < name.len() implies !is_separator(#[trigger] name[j]) by {}
    if name.len() >= 2 {
        assert(!is_separator(name[name.len() - 2]));
    }
    assert(trim_tail(name) == name);
    lemma_last_component(name, 0);
    assert(name.subrange(0, name.len() as int) =~= name);
}

proof fn lemma_trim_separators(q: Seq<char>, tail: Seq<char>)
    requires
        forall|i: int| 0 <= i < tail.len() ==> #[trigger] tail[i] == '/' || tail[i] == '\\',
    ensures
        trim_tail(q + tail) == trim_tail(q),
    decreases tail.len(),
{
    if tail.len() == 0 {
        assert(q + tail =~= q);
    } else {
        let t = tail.drop_last();
        assert((q + tail).drop_last() =~= q + t);
        assert((q + tail).last() == tail[tail.len() - 1]);
        lemma_trim_separators(q, t);
    }
}

/// Separators after a file's name do not change the name it is shared
/// under, and a path that ends in `..` names no file to share.
pub proof fn law_trailing_separators_and_parent(
    dir: Seq<char>,
    sep: char,
    name: Seq<char>,
    tail: Seq<char>,
)
    requires
        sep == '/' || sep == '\\',
        name.len() > 0,
        forall|i: int| 0 <= i < name.len() ==> #[trigger] name[i] != '/' && name[i] != '\\',
        name != seq!['.'],
        name != seq!['.', '.'],
        forall|i: int| 0 <= i < tail.len() ==> #[trigger] tail[i] == '/' || tail[i] == '\\',
    ensures
        share_name_of(dir + seq![sep] + name + tail) == Some(name),
        share_name_of(dir + seq![sep] + seq!['.', '.'] + tail) is None,
{
    law_file_name_is_shared(dir, sep, name);
    let p = dir + seq![sep] + name;
    lemma_trim_separators(p, tail);
    let m = p.len() as int;
    assert(p.last() == name[name.len() - 1]);
    assert(!is_separator(name[name.len() - 1]));
    if name.len() >= 2 {
        assert(p[m - 2] == name[name.len() - 2]);
        assert(!is_separator(name[name.len() - 2]));
    } else {
        assert(name =~= seq![name[0]]);
    }
    assert(trim_tail(p) == p);
    let u = dir + seq![sep] + seq!['.', '.'];
    lemma_trim_separators(u, tail);
    let n = u.len() as int;
    assert(u[n - 1] == '.' && u[n - 2] == '.');
    assert(trim_tail(u) == u);
    let start = dir.len() as int + 1;
    assert forall|j: int| start <= j < n implies !is_separator(#[trigger] u[j]) by {}
    assert(u[start - 1] == sep);
    lemma_last_component(u, start);
    assert(u.subrange(start, n) =~= seq!['.', '.']);
}

fn char_is_separator(c: char) -> (b: bool)
    ensures
        b == is_separator(c),
{
    c == '/' || c == '\\'
}

/// The name under which the file at `path` is shared; `None` when the path
/// names no file.
pub fn share_name(path: &str) -> (name: Option<String>)
    ensures
        match name {
            Some(n) => share_name_of(path@) == Some(n@),
            None => share_name_of(path@) is None,
        },
{
    let len = path.unicode_len();
    let mut end: usize = len;
    proof {
        assert(path@.subrange(0, len as int) =~= path@);
    }
    while end > 0 && (char_is_separator(path.get_char(end - 1)) || (path.get_char(end - 1) == '.'
        && (end == 1 || char_is_separator(path.get_char(end - 2)))))
        invariant
            len == path@.len(),
            end <= len,
            trim_tail(path@) == trim_tail(path@.subrange(0, end as int)),
        decreases end,
    {
        proof {
            let p = path@.subrange(0, end as int);
            assert(p.drop_last() =~= path@.subrange(0, end - 1));
            assert(p.last() == path@[end - 1]);
            if end >= 2 {
                assert(p[p.len() - 2] == path@[end - 2]);
            }
        }
        end = end - 1;
    }
    proof {
        let p = path@.subrange(0, end as int);
        if end > 0 {
            assert(p.last() == path@[end - 1]);
            if end >= 2 {
                assert(p[p.len() - 2] == path@[end - 2]);
            }
        }
        assert(trim_tail(p) == p);
    }
    let mut start: usize = end;
    while start > 0 && !char_is_separator(path.get_char(start - 1))
        invariant
            len == path@.len(),
            start <= end <= len,
            forall|j: int| start <= j < end ==> !is_separator(#[trigger] path@[j]),
        decreases start,
    {
        start = start - 1;
    }
    let ghost q = path@.subrange(0, end as int);
    proof {
        assert forall|j: int| start <= j < q.len() implies !is_separator(#[trigger] q[j]) by {
            assert(q[j] == path@[j]);
        }
        if start > 0 {
            assert(q[start - 1] == path@[start - 1]);
        }
        lemma_last_component(q, start as int);
        assert(q.subrange(start as int, end as int) =~= path@.subrange(start as int, end as int));
    }
    let component = path.substring_char(start, end);
    let n = end - start;
    if n == 0 {
        return None;
    }
    if n == 1 && component.get_char(0) == '.' {
        proof {
            assert(component@ =~= seq!['.']);
        }
        return None;
    }
    if n == 2 && component.get_char(0) == '.' && component.get_char(1) == '.' {
        proof {
            assert(component@ =~= seq!['.', '.']);
        }
        return None;
    }
    proof {
        if n == 1 {
            assert(component@[0] != '.');
        }
        if n == 2 {
            assert(component@[0] != '.' || component@[1] != '.');
        }
    }
    Some(String::from_str(component))
}

} // verus!
