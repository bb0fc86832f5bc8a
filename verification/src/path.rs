//! Paths as plain text: the final component of a path, and joining a name
//! onto a directory. Components are separated by `/`.

use vstd::prelude::*;
use vstd::string::*;
use crate::text::{from_chars, text_of, to_chars};

verus! {

/// Where the last `/`-free stretch of `path` begins: just behind the last
/// separator, or at 0 when there is none.
pub open spec fn component_start(path: Seq<char>) -> int
    decreases path.len(),
{
    if path.len() == 0 || path.last() == '/' {
        path.len() as int
    } else {
        component_start(path.drop_last())
    }
}

/// The file name that `path` ends in, if it ends in one.
///
/// Trailing separators and trailing `.` components are passed over. What is
/// then the last component is the file name, unless nothing is left (the
/// empty path, the root) or it is `..`.
pub open spec fn final_component(path: Seq<char>) -> Option<Seq<char>>
    decreases path.len(),
{
    if path.len() == 0 {
        None
    } else {
        let last = path.subrange(component_start(path), path.len() as int);
        if last.len() == 0 || last == seq!['.'] {
            final_component(path.drop_last())
        } else if last == seq!['.', '.'] {
            None
        } else {
            Some(last)
        }
    }
}

/// `base` with `name` as one more component: an absolute `name` stands
/// alone, and a separator is put between the two unless `base` is empty or
/// already ends in one.
pub open spec fn joined(base: Seq<char>, name: Seq<char>) -> Seq<char> {
    if name.len() > 0 && name[0] == '/' {
        name
    } else if base.len() == 0 || base.last() == '/' {
        base + name
    } else {
        base + seq!['/'] + name
    }
}

/// A separator-free stretch that reaches back to a separator, or to the
/// front of the path, is the path's last component.
pub proof fn lemma_component_start(path: Seq<char>, start: int)
    requires
        0 <= start <= path.len(),
        start == 0 || path[start - 1] == '/',
        forall|k: int| start <= k < path.len() ==> path[k] != '/',
    ensures
        component_start(path) == start,
    decreases path.len(),
{
    if start < path.len() {
        lemma_component_start(path.drop_last(), start);
    }
}

/// What can be a file name: a text that is not empty, holds no separator
/// and is neither `.` nor `..`.
pub open spec fn is_file_name(name: Seq<char>) -> bool {
    &&& name.len() > 0
    &&& forall|k: int| 0 <= k < name.len() ==> name[k] != '/'
    &&& name != seq!['.']
    &&& name != seq!['.', '.']
}

/// The file name in which a path ends is a file name.
pub proof fn lemma_final_component_is_file_name(path: Seq<char>)
    ensures
        final_component(path) matches Some(name) ==> is_file_name(name),
    decreases path.len(),
{
    if path.len() > 0 {
        lemma_final_component_is_file_name(path.drop_last());
        lemma_component_holds_no_separator(path);
    }
}

/// A file name joined onto a directory gives a path that ends in that
/// file name: a copy in the mirror directory is named as its file is.
pub proof fn lemma_joined_ends_in_file_name(directory: Seq<char>, name: Seq<char>)
    requires
        is_file_name(name),
    ensures
        final_component(joined(directory, name)) == Some(name),
{
    let path = joined(directory, name);
    let start = path.len() - name.len();
    assert(path.subrange(start, path.len() as int) =~= name);
    assert forall|k: int| start <= k < path.len() implies path[k] != '/' by {
        assert(path[k] == name[k - start]);
    }
    lemma_component_start(path, start);
}

/// Nothing from `component_start` on is a separator.
pub proof fn lemma_component_holds_no_separator(path: Seq<char>)
    ensures
        0 <= component_start(path) <= path.len(),
        forall|k: int| component_start(path) <= k < path.len() ==> path[k] != '/',
        component_start(path) == 0 || path[component_start(path) - 1] == '/',
    decreases path.len(),
{
    if path.len() > 0 && path.last() != '/' {
        let front = path.drop_last();
        lemma_component_holds_no_separator(front);
        assert forall|k: int| component_start(path) <= k < path.len() implies path[k] != '/' by {
            if k < front.len() {
                assert(front[k] == path[k]);
            }
        }
    }
}

/// The file name that `path` ends in, or `None` when it ends in none.
pub fn file_name(path: &str) -> (name: Option<String>)
    ensures
        text_of(name) == final_component(path@),
{
    let chars = to_chars(path);
    let mut end: usize = chars.len();
    assert(chars@.take(end as int) == chars@);
    while end > 0
        invariant
            end <= chars.len(),
            chars@ == path@,
            final_component(path@) == final_component(chars@.take(end as int)),
        decreases end,
    {
        let ghost rest = chars@.take(end as int);
        let mut start: usize = end;
        while start > 0 && chars[start - 1] != '/'
            invariant
                start <= end <= chars.len(),
                forall|k: int| start <= k < end ==> chars@[k] != '/',
            decreases start,
        {
            start -= 1;
        }
        proof {
            lemma_component_start(rest, start as int);
            assert(rest.drop_last() == chars@.take(end as int - 1));
        }
        let len: usize = end - start;
        if len == 0 || (len == 1 && chars[start] == '.') {
            assert(rest.subrange(start as int, end as int).len() == len);
            assert(len == 1 ==> rest.subrange(start as int, end as int) == seq!['.']);
            end -= 1;
        } else if len == 2 && chars[start] == '.' && chars[start + 1] == '.' {
            assert(rest.subrange(start as int, end as int) == seq!['.', '.']);
            return None;
        } else {
            let name = from_chars(&chars, start, end);
            proof {
                let last = rest.subrange(start as int, end as int);
                assert(last == chars@.subrange(start as int, end as int));
                assert(last[0] == chars@[start as int]);
                if len == 2 {
                    assert(last[1] == chars@[start + 1]);
                }
            }
            return Some(name);
        }
    }
    None
}

/// `base` with `name` joined on as one more component.
pub fn join(base: &str, name: &str) -> (path: String)
    ensures
        path@ == joined(base@, name@),
{
    let head = to_chars(base);
    let tail = to_chars(name);
    if tail.len() > 0 && tail[0] == '/' {
        return name.to_owned();
    }
    let mut path = base.to_owned();
    if head.len() > 0 && head[head.len() - 1] != '/' {
        path.push('/');
    }
    path.append(name);
    path
}

} // verus!
