//! File paths as text, with `/` between their components.
use vstd::prelude::*;
use vstd::string::StringExecFns;
use crate::text::{chars_of, last_of, last_place, text_of};

verus! {

/// `path` behind `base`: `path` alone where it begins at the root, else with one `/` between
/// them, unless `base` is empty or ends with one.
pub open spec fn joined_path(base: Seq<char>, path: Seq<char>) -> Seq<char> {
    if path.len() > 0 && path[0] == '/' {
        path
    } else if base.len() == 0 || base.last() == '/' {
        base + path
    } else {
        base + "/"@ + path
    }
}

/// How many characters of the first `n` stay when slashes and components `.` are taken off
/// their end; the root and a `.` that stands alone stay.
pub open spec fn kept_len(path: Seq<char>, n: int) -> int
    decreases n,
{
    if n >= 2 && path[n - 1] == '/' {
        kept_len(path, n - 1)
    } else if n >= 2 && path[n - 1] == '.' && path[n - 2] == '/' {
        kept_len(path, n - 1)
    } else {
        n
    }
}

/// The position behind the last `/` among the first `n` characters.
pub open spec fn name_start(path: Seq<char>, n: int) -> int
    decreases n,
{
    if n <= 0 || path[n - 1] == '/' {
        n
    } else {
        name_start(path, n - 1)
    }
}

/// The last component of a path, where it is a name.
pub open spec fn file_name(path: Seq<char>) -> Option<Seq<char>> {
    let n = kept_len(path, path.len() as int);
    let name = path.subrange(name_start(path, n), n);
    if name.len() == 0 || name == "."@ || name == ".."@ {
        None
    } else {
        Some(name)
    }
}

/// The path without its last component; there is none for the root and for the empty path.
pub open spec fn parent(path: Seq<char>) -> Option<Seq<char>> {
    let n = kept_len(path, path.len() as int);
    let start = name_start(path, n);
    if start == n {
        None
    } else {
        Some(path.take(kept_len(path, start)))
    }
}

/// A file name without its last extension. A name whose only dot is its first character has no
/// extension.
pub open spec fn file_stem(name: Seq<char>) -> Seq<char> {
    if last_of(name, '.') > 0 {
        name.take(last_of(name, '.'))
    } else {
        name
    }
}

pub proof fn lemma_name_start(path: Seq<char>, n: int)
    requires
        0 <= n <= path.len(),
    ensures
        0 <= name_start(path, n) <= n,
        name_start(path, n) > 0 ==> path[name_start(path, n) - 1] == '/',
    decreases n,
{
    if n > 0 && path[n - 1] != '/' {
        lemma_name_start(path, n - 1);
    }
}

pub proof fn lemma_kept_len(path: Seq<char>, n: int)
    requires
        0 <= n <= path.len(),
    ensures
        0 <= kept_len(path, n) <= n,
    decreases n,
{
    if n >= 2 && (path[n - 1] == '/' || (path[n - 1] == '.' && path[n - 2] == '/')) {
        lemma_kept_len(path, n - 1);
    }
}

/// `path` behind `base`.
pub fn join_path(base: &str, path: &str) -> (r: String)
    ensures
        r@ == joined_path(base@, path@),
{
    let b = chars_of(base);
    let p = chars_of(path);
    if p.len() > 0 && p[0] == '/' {
        return path.to_owned();
    }
    let mut out = base.to_owned();
    if b.len() > 0 && b[b.len() - 1] != '/' {
        out.append("/");
    }
    out.append(path);
    out
}

fn kept(path: &[char], from: usize) -> (r: usize)
    requires
        from <= path@.len(),
    ensures
        r == kept_len(path@, from as int),
        r <= from,
{
    let mut n: usize = from;
    while n >= 2 && (path[n - 1] == '/' || (path[n - 1] == '.' && path[n - 2] == '/'))
        invariant
            n <= from <= path@.len(),
            kept_len(path@, from as int) == kept_len(path@, n as int),
        decreases n,
    {
        n = n - 1;
    }
    n
}

fn start_of_name(path: &[char], from: usize) -> (r: usize)
    requires
        from <= path@.len(),
    ensures
        r == name_start(path@, from as int),
        r <= from,
{
    let mut n: usize = from;
    while n > 0 && path[n - 1] != '/'
        invariant
            n <= from <= path@.len(),
            name_start(path@, from as int) == name_start(path@, n as int),
        decreases n,
    {
        n = n - 1;
    }
    n
}

/// The last component of a path, where it is a name.
pub fn file_name_of(path: &str) -> (r: Option<String>)
    ensures
        match r {
            Some(name) => file_name(path@) == Some(name@),
            None => file_name(path@) is None,
        },
{
    let c = chars_of(path);
    let n: usize = kept(c.as_slice(), c.len());
    let start: usize = start_of_name(c.as_slice(), n);
    let name = text_of(c.as_slice(), start, n);
    if start == n || crate::text::same(name.as_str(), ".") || crate::text::same(
        name.as_str(),
        "..",
    ) {
        None
    } else {
        Some(name)
    }
}

/// A file name without its last extension.
pub fn file_stem_of(name: &str) -> (r: String)
    ensures
        r@ == file_stem(name@),
{
    let c = chars_of(name);
    match last_place(c.as_slice(), '.') {
        Some(dot) => if dot > 0 {
            assert(c@.subrange(0, dot as int) =~= name@.take(dot as int));
            text_of(c.as_slice(), 0, dot)
        } else {
            name.to_owned()
        },
        None => name.to_owned(),
    }
}

/// The path without its last component.
pub fn parent_of(path: &str) -> (r: Option<String>)
    ensures
        match r {
            Some(p) => parent(path@) == Some(p@),
            None => parent(path@) is None,
        },
{
    let c = chars_of(path);
    let n: usize = kept(c.as_slice(), c.len());
    let start: usize = start_of_name(c.as_slice(), n);
    if start == n {
        return None;
    }
    let end: usize = kept(c.as_slice(), start);
    assert(c@.subrange(0, end as int) =~= path@.take(end as int));
    Some(text_of(c.as_slice(), 0, end))
}

/// A path behind a directory is in that directory, under its own name; one that begins at the root
/// stays what it is.
pub proof fn law_path_is_in_its_directory(dir: Seq<char>, name: Seq<char>)
    requires
        name.len() > 0,
        !name.contains('/'),
    ensures
        dir.len() > 0 && dir.last() != '/' ==> joined_path(dir, name) == dir + seq!['/'] + name,
        joined_path(dir + seq!['/'], name) == dir + seq!['/'] + name,
        joined_path(seq![], name) == name,
        joined_path(dir, seq!['/'] + name) == seq!['/'] + name,
        name != "."@ && name != ".."@ ==> {
            &&& file_name(joined_path(dir, name)) == Some(name)
            &&& file_name(name) == Some(name)
            &&& parent(joined_path(dir + seq!['/'], name)) == Some(
                (dir + seq!['/']).take(kept_len(dir + seq!['/'], dir.len() + 1int)),
            )
        },
{
    reveal_strlit("/");
    reveal_strlit(".");
    assert("/"@ =~= seq!['/']);
    assert(name[0] != '/') by {
        assert(name.contains(name[0]));
    }
    assert((dir + seq!['/']).last() == '/');
    assert((seq!['/'] + name)[0] == '/');
    assert(Seq::<char>::empty() + name =~= name);
    if name != "."@ && name != ".."@ {
        let path = joined_path(dir, name);
        let before = path.take(path.len() - name.len());
        assert(path =~= before + name);
        lemma_name_behind(before, name);
        let other = joined_path(dir + seq!['/'], name);
        lemma_name_behind(dir + seq!['/'], name);
        lemma_name_behind(seq![], name);
        assert(kept_len(other, dir.len() + 1int) == kept_len(dir + seq!['/'], dir.len() + 1int)) by {
            lemma_kept_of_front(dir + seq!['/'], name, dir.len() + 1int);
        }
        lemma_kept_of_front(dir + seq!['/'], name, dir.len() + 1int);
        assert(other.take(kept_len(other, dir.len() + 1int)) =~= (dir + seq!['/']).take(
            kept_len(dir + seq!['/'], dir.len() + 1int),
        ));
    }
}

proof fn lemma_kept_of_front(front: Seq<char>, back: Seq<char>, n: int)
    requires
        0 <= n <= front.len(),
    ensures
        kept_len(front + back, n) == kept_len(front, n),
        0 <= kept_len(front, n) <= n,
    decreases n,
{
    if n >= 1 {
        lemma_kept_of_front(front, back, n - 1);
    }
}

proof fn lemma_name_behind(before: Seq<char>, name: Seq<char>)
    requires
        name.len() > 0,
        !name.contains('/'),
        name != "."@,
        name != ".."@,
        before.len() == 0 || before.last() == '/',
    ensures
        kept_len(before + name, (before + name).len() as int) == (before + name).len(),
        name_start(before + name, (before + name).len() as int) == before.len(),
        file_name(before + name) == Some(name),
{
    reveal_strlit(".");
    let path = before + name;
    let n = path.len() as int;
    assert(path[n - 1] == name.last());
    assert(name.contains(name.last()));
    if n >= 2 && path[n - 1] == '.' && path[n - 2] == '/' {
        if name.len() == 1 {
            assert(name =~= "."@);
        } else {
            assert(path[n - 2] == name[name.len() - 2]);
            assert(name.contains(name[name.len() - 2]));
        }
    }
    lemma_start_of_name(before, name, n);
    assert(path.subrange(before.len() as int, n) =~= name);
}

proof fn lemma_start_of_name(before: Seq<char>, name: Seq<char>, n: int)
    requires
        !name.contains('/'),
        before.len() == 0 || before.last() == '/',
        before.len() <= n <= before.len() + name.len(),
    ensures
        name_start(before + name, n) == before.len(),
    decreases n,
{
    if n > before.len() {
        assert((before + name)[n - 1] == name[n - 1 - before.len()]);
        assert(name.contains(name[n - 1 - before.len()]));
        lemma_start_of_name(before, name, n - 1);
    }
}

/// The stem of a name is what stands before its last dot; a name without one, or with none but the
/// first character, is its own stem.
pub proof fn law_stem_ends_at_last_dot(stem: Seq<char>, extension: Seq<char>)
    requires
        !extension.contains('.'),
    ensures
        stem.len() > 0 ==> file_stem(stem + seq!['.'] + extension) == stem,
        file_stem(extension) == extension,
        file_stem(seq!['.'] + extension) == seq!['.'] + extension,
{
    lemma_last_dot(stem, extension);
    lemma_last_dot(seq![], extension);
    let all = stem + seq!['.'] + extension;
    assert(all.take(stem.len() as int) =~= stem);
    assert(Seq::<char>::empty() + seq!['.'] + extension =~= seq!['.'] + extension);
    lemma_no_dot(extension);
}

proof fn lemma_last_dot(s: Seq<char>, tail: Seq<char>)
    requires
        !tail.contains('.'),
    ensures
        last_of(s + seq!['.'] + tail, '.') == s.len(),
    decreases tail.len(),
{
    let all = s + seq!['.'] + tail;
    if tail.len() > 0 {
        assert(tail.contains(tail[tail.len() - 1]));
        let head = tail.drop_last();
        assert(!head.contains('.')) by {
            if head.contains('.') {
                let i = choose|i: int| 0 <= i < head.len() && head[i] == '.';
                assert(tail[i] == '.');
            }
        }
        assert(all.drop_last() =~= s + seq!['.'] + head);
        lemma_last_dot(s, head);
    }
}

proof fn lemma_no_dot(s: Seq<char>)
    requires
        !s.contains('.'),
    ensures
        last_of(s, '.') < 0,
    decreases s.len(),
{
    if s.len() > 0 {
        assert(s.contains(s.last()));
        let t = s.drop_last();
        assert(!t.contains('.')) by {
            if t.contains('.') {
                let i = choose|i: int| 0 <= i < t.len() && t[i] == '.';
                assert(s[i] == '.');
            }
        }
        lemma_no_dot(t);
    }
}

} // verus!
