//! Paths as `/`-separated text: relative paths, joining, parents.

use crate::text::chars_of;
use vstd::prelude::*;

verus! {

/// Whether `path` is relative: it does not begin with a separator.
pub open spec fn is_relative(path: Seq<char>) -> bool {
    path.len() == 0 || path[0] != '/'
}

/// `path` without the separators that it begins with.
pub open spec fn without_leading_separators(path: Seq<char>) -> Seq<char>
    decreases path.len(),
{
    if path.len() > 0 && path[0] == '/' {
        without_leading_separators(path.skip(1))
    } else {
        path
    }
}

/// `path` without the separators that it ends with.
pub open spec fn without_trailing_separators(path: Seq<char>) -> Seq<char>
    decreases path.len(),
{
    if path.len() > 0 && path.last() == '/' {
        without_trailing_separators(path.drop_last())
    } else {
        path
    }
}

/// The path of `path` relative to `root`, if `path` lies at or under `root`.
///
/// `path` lies at or under `root` where it begins with `root` and what
/// follows is nothing, or begins with a separator, or `root` is empty or
/// ends in a separator. Every separator that follows `root` is dropped, so
/// that the relative path never begins with one. `root` itself has the empty
/// relative path.
pub open spec fn relative_to(path: Seq<char>, root: Seq<char>) -> Option<Seq<char>> {
    if !root.is_prefix_of(path) {
        None
    } else {
        let rest = path.skip(root.len() as int);
        if rest.len() == 0 || root.len() == 0 || root.last() == '/' || rest[0] == '/' {
            Some(without_leading_separators(rest))
        } else {
            None
        }
    }
}

/// `base` followed by `rel`, with one separator between them where both are
/// present and `base` does not already end in one.
pub open spec fn joined(base: Seq<char>, rel: Seq<char>) -> Seq<char> {
    if base.len() == 0 {
        rel
    } else if rel.len() == 0 {
        base
    } else if base.last() == '/' {
        base + rel
    } else {
        base + seq!['/'] + rel
    }
}

/// The position of the last separator in `path`, or -1 where it has none.
pub open spec fn last_separator(path: Seq<char>) -> int
    decreases path.len(),
{
    if path.len() == 0 {
        -1
    } else if path.last() == '/' {
        path.len() - 1
    } else {
        last_separator(path.drop_last())
    }
}

/// The directory that holds `path`: what stands before the last separator
/// that is followed by a name, without the separators that end it. A path
/// without such a separator has the empty parent, one directly under `/` has
/// the parent `/`.
pub open spec fn parent_of(path: Seq<char>) -> Seq<char> {
    let trimmed = without_trailing_separators(path);
    let at = last_separator(trimmed);
    if at < 0 {
        Seq::empty()
    } else {
        let head = without_trailing_separators(trimmed.take(at));
        if head.len() == 0 {
            seq!['/']
        } else {
            head
        }
    }
}

/// What is left without its trailing separators ends in none, begins
/// `path`, and is `path` itself where `path` ends in none. Taking them off
/// a second time changes nothing.
pub proof fn lemma_without_trailing_separators(path: Seq<char>)
    ensures
        without_trailing_separators(path).len() == 0 || without_trailing_separators(path).last()
            != '/',
        without_trailing_separators(path).is_prefix_of(path),
        forall|i: int|
            without_trailing_separators(path).len() <= i < path.len() ==> path[i] == '/',
        path.len() == 0 || path.last() != '/' ==> without_trailing_separators(path) == path,
        without_trailing_separators(without_trailing_separators(path))
            == without_trailing_separators(path),
    decreases path.len(),
{
    if path.len() > 0 && path.last() == '/' {
        let front = path.drop_last();
        lemma_without_trailing_separators(front);
        let kept = without_trailing_separators(front);
        assert(kept.is_prefix_of(path)) by {
            assert(kept =~= front.subrange(0, kept.len() as int));
            assert(kept =~= path.subrange(0, kept.len() as int));
        }
        assert forall|i: int| kept.len() <= i < path.len() implies path[i] == '/' by {
            if i < front.len() {
                assert(front[i] == path[i]);
            }
        }
    } else {
        assert(path =~= path.subrange(0, path.len() as int));
    }
}

/// What is left without its leading separators is relative.
pub proof fn lemma_without_leading_separators(path: Seq<char>)
    ensures
        is_relative(without_leading_separators(path)),
        is_relative(path) ==> without_leading_separators(path) == path,
    decreases path.len(),
{
    if path.len() > 0 && path[0] == '/' {
        lemma_without_leading_separators(path.skip(1));
    }
}

/// A path relative to a root never begins with a separator.
pub proof fn lemma_relative_to_is_relative(path: Seq<char>, root: Seq<char>)
    ensures
        relative_to(path, root) matches Some(rel) ==> is_relative(rel),
{
    lemma_without_leading_separators(path.skip(root.len() as int));
}

/// A relative path is found again after it has been joined onto a base.
pub proof fn lemma_relative_to_joined(base: Seq<char>, rel: Seq<char>)
    requires
        is_relative(rel),
    ensures
        relative_to(joined(base, rel), base) == Some(rel),
{
    let whole = joined(base, rel);
    let rest = whole.skip(base.len() as int);
    lemma_without_leading_separators(rel);
    if base.len() > 0 && rel.len() > 0 && base.last() != '/' {
        assert(rest =~= seq!['/'] + rel);
        assert(rest.skip(1) =~= rel);
    } else {
        assert(rest =~= rel);
    }
}

/// Computes the path of `path` relative to `root`.
pub fn relative_path<'a>(path: &'a str, root: &str) -> (r: Option<&'a str>)
    ensures
        match r {
            Some(rel) => relative_to(path@, root@) == Some(rel@) && is_relative(rel@),
            None => relative_to(path@, root@) is None,
        },
{
    let p = chars_of(path);
    let r = chars_of(root);
    if r.len() > p.len() {
        return None;
    }
    let mut i: usize = 0;
    while i < r.len()
        invariant
            i <= r.len() <= p.len(),
            p@ == path@,
            r@ == root@,
            forall|j: int| 0 <= j < i ==> p@[j] == r@[j],
        decreases r.len() - i,
    {
        if p[i] != r[i] {
            assert(path@.subrange(0, root@.len() as int)[i as int] != root@[i as int]);
            return None;
        }
        i = i + 1;
    }
    assert(root@ =~= path@.subrange(0, root@.len() as int));
    if !(p.len() == r.len() || r.len() == 0 || r[r.len() - 1] == '/' || p[r.len()] == '/') {
        return None;
    }
    let mut start: usize = r.len();
    while start < p.len() && p[start] == '/'
        invariant
            r.len() <= start <= p.len(),
            p@ == path@,
            without_leading_separators(path@.skip(r.len() as int)) == without_leading_separators(
                path@.skip(start as int),
            ),
        decreases p.len() - start,
    {
        assert(path@.skip(start as int).skip(1) =~= path@.skip(start as int + 1));
        start = start + 1;
    }
    proof {
        lemma_without_leading_separators(path@.skip(start as int));
    }
    Some(path.substring_char(start, p.len()))
}

/// Joins a relative path onto a base.
pub fn join_path(base: &str, rel: &str) -> (r: String)
    ensures
        r@ == joined(base@, rel@),
{
    let b = chars_of(base);
    let mut out = String::new();
    if b.len() == 0 {
        out.append(rel);
        return out;
    }
    out.append(base);
    if rel.unicode_len() == 0 {
        return out;
    }
    if b[b.len() - 1] != '/' {
        proof {
            reveal_strlit("/");
        }
        out.append("/");
    }
    out.append(rel);
    out
}

/// The length of `path` cut at `end` and then taken without the separators
/// that end it.
fn trimmed_len(path: &Vec<char>, end: usize) -> (r: usize)
    requires
        end <= path.len(),
    ensures
        r <= end,
        path@.take(r as int) == without_trailing_separators(path@.take(end as int)),
{
    let mut len: usize = end;
    while len > 0 && path[len - 1] == '/'
        invariant
            len <= end <= path.len(),
            without_trailing_separators(path@.take(end as int)) == without_trailing_separators(
                path@.take(len as int),
            ),
        decreases len,
    {
        assert(path@.take(len as int).drop_last() =~= path@.take(len as int - 1));
        len = len - 1;
    }
    len
}

/// Computes the directory that holds `path`.
pub fn parent_path<'a>(path: &'a str) -> (r: &'a str)
    ensures
        r@ == parent_of(path@),
{
    let p = chars_of(path);
    assert(path@.take(p.len() as int) =~= path@);
    let end = trimmed_len(&p, p.len());
    let ghost trimmed = path@.take(end as int);
    let mut i: usize = end;
    assert(trimmed.take(i as int) =~= trimmed);
    while i > 0
        invariant
            i <= end <= p.len(),
            p@ == path@,
            trimmed == path@.take(end as int),
            trimmed == without_trailing_separators(path@),
            last_separator(trimmed) == last_separator(trimmed.take(i as int)),
        decreases i,
    {
        assert(trimmed.take(i as int).drop_last() =~= trimmed.take(i as int - 1));
        if p[i - 1] == '/' {
            assert(trimmed.take(i as int - 1) =~= path@.take(i as int - 1));
            let head = trimmed_len(&p, i - 1);
            assert(last_separator(trimmed) == i - 1);
            if head == 0 {
                assert(path@.take(0).len() == 0);
                assert(path@.subrange(i as int - 1, i as int) =~= seq!['/']);
                return path.substring_char(i - 1, i);
            }
            return path.substring_char(0, head);
        }
        i = i - 1;
    }
    path.substring_char(0, 0)
}

/// Takes the trailing separators off a path: `dirname/` becomes `dirname`.
pub fn remove_end_slash(base_dir: &str) -> (r: String)
    ensures
        r@ == without_trailing_separators(base_dir@),
        r@.len() == 0 || r@.last() != '/',
{
    let p = chars_of(base_dir);
    assert(base_dir@.take(p.len() as int) =~= base_dir@);
    let len = trimmed_len(&p, p.len());
    proof {
        lemma_without_trailing_separators(base_dir@);
    }
    base_dir.substring_char(0, len).to_owned()
}

} // verus!
