//! Paths as texts, with `/` between their parts.
use vstd::prelude::*;
use crate::text::{chars_of, copy_str, string_of};

verus! {

/// What stands behind the last `/` of a path.
pub open spec fn last_part(path: Seq<char>) -> Seq<char>
    decreases path.len(),
{
    if path.len() == 0 || path.last() == '/' {
        Seq::empty()
    } else {
        last_part(path.drop_last()).push(path.last())
    }
}

/// The name of the file that a path leads to: its last part. Empty parts and single dots are passed over;
/// there is no name where the path leads up or has no part.
pub open spec fn file_name(path: Seq<char>) -> Option<Seq<char>>
    decreases path.len(),
{
    let part = last_part(path);
    if part.len() > 0 && part != seq!['.'] {
        if part == seq!['.', '.'] { None } else { Some(part) }
    } else if part.len() >= path.len() {
        None
    } else {
        file_name(path.take(path.len() - part.len() - 1))
    }
}

/// The name of the file that a path leads to.
pub fn find_file_name(path: &str) -> (r: Option<String>)
    ensures
        match r {
            Some(name) => file_name(path@) == Some(name@),
            None => file_name(path@) is None,
        },
{
    let chars = chars_of(path);
    let mut end: usize = chars.len();
    assert(chars@.take(end as int) =~= chars@);
    loop
        invariant
            end <= chars@.len(),
            chars@ == path@,
            file_name(path@) == file_name(chars@.take(end as int)),
        decreases end,
    {
        let ghost here = chars@.take(end as int);
        let mut start: usize = end;
        assert(here.take(start as int) =~= here);
        assert(last_part(here) =~= last_part(here.take(start as int)) + chars@.subrange(start as int, end as int));
        while start > 0 && chars[start - 1] != '/'
            invariant
                start <= end <= chars@.len(),
                here == chars@.take(end as int),
                last_part(here) == last_part(here.take(start as int)) + chars@.subrange(start as int, end as int),
            decreases start,
        {
            proof {
                assert(here.take(start as int).drop_last() =~= here.take(start - 1));
                assert(here.take(start as int).last() == chars@[start - 1]);
                assert(chars@.subrange(start - 1, end as int) =~= seq![chars@[start - 1]] + chars@.subrange(
                    start as int,
                    end as int,
                ));
                assert(last_part(here) =~= last_part(here.take(start - 1)) + chars@.subrange(start - 1, end as int));
            }
            start -= 1;
        }
        proof {
            if start > 0 {
                assert(here.take(start as int).last() == '/');
            }
            assert(last_part(here.take(start as int)) =~= Seq::<char>::empty());
            assert(last_part(here) =~= chars@.subrange(start as int, end as int));
        }
        let len: usize = end - start;
        let ghost part = last_part(here);
        let dot = len == 1 && chars[start] == '.';
        proof {
            if len > 0 {
                assert(part[0] == chars@[start as int]);
            }
            if dot {
                assert(part =~= seq!['.']);
            }
        }
        if len > 0 && !dot {
            let up = len == 2 && chars[start] == '.' && chars[start + 1] == '.';
            proof {
                if len == 2 {
                    assert(part[1] == chars@[start + 1]);
                }
                if up {
                    assert(part =~= seq!['.', '.']);
                }
            }
            if up {
                return None;
            }
            return Some(string_of(&chars, start, end));
        }
        if start == 0 {
            return None;
        }
        assert(here.take(here.len() - part.len() - 1) =~= chars@.take(start - 1));
        end = start - 1;
    }
}

/// A file in a directory.
pub open spec fn in_directory(dir: Seq<char>, name: Seq<char>) -> Seq<char> {
    if dir.len() == 0 || dir.last() == '/' { dir + name } else { dir + "/"@ + name }
}

/// The path of a file in a directory.
pub fn join_path(dir: &str, name: &str) -> (r: String)
    ensures
        r@ == in_directory(dir@, name@),
{
    let chars = chars_of(dir);
    let mut s = copy_str(dir);
    if chars.len() > 0 && chars[chars.len() - 1] != '/' {
        s.append("/");
    }
    s.append(name);
    s
}

/// The name of a file in a directory is its own, however the directory is written, where it is one part
/// and neither leads up nor stays.
pub proof fn lemma_file_name(dir: Seq<char>, name: Seq<char>)
    requires
        !name.contains('/'),
        name.len() > 0,
        name != seq!['.'],
        name != seq!['.', '.'],
    ensures
        file_name(dir + "/"@ + name) == Some(name),
        file_name(in_directory(dir, name)) == Some(name),
{
    reveal_strlit("/");
    lemma_name_is_last(dir + "/"@, name);
    if dir.len() == 0 || dir.last() == '/' {
        lemma_name_is_last(dir, name);
    }
}

proof fn lemma_name_is_last(front: Seq<char>, name: Seq<char>)
    requires
        front.len() == 0 || front.last() == '/',
        !name.contains('/'),
    ensures
        last_part(front + name) == name,
    decreases name.len(),
{
    let path = front + name;
    if name.len() == 0 {
        assert(path =~= front);
        assert(last_part(path) =~= name);
    } else {
        let d = name.drop_last();
        assert(!d.contains('/')) by {
            if d.contains('/') {
                let i = choose|i: int| 0 <= i < d.len() && d[i] == '/';
                assert(name[i] == '/');
            }
        }
        lemma_name_is_last(front, d);
        assert(path.drop_last() =~= front + d);
        assert(path.last() == name[name.len() - 1]);
        assert(name.contains(name[name.len() - 1]));
        assert(last_part(path) =~= name);
    }
}

} // verus!
