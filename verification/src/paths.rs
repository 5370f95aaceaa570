//! File extensions of slash-separated paths.
use crate::text;
use vstd::prelude::*;

verus! {

/// Whether a part of a path names something: neither nothing nor the directory
/// itself.
pub open spec fn names(part: Seq<char>) -> bool {
    part.len() > 0 && part != "."@
}

/// The last part of a path that names something.
pub open spec fn last_name(parts: Seq<Seq<char>>) -> Option<Seq<char>>
    decreases parts.len(),
{
    if parts.len() == 0 {
        None
    } else if names(parts.last()) {
        Some(parts.last())
    } else {
        last_name(parts.drop_last())
    }
}

/// What follows the last dot of a file name, where something stands before that dot.
pub open spec fn after_dot(name: Seq<char>) -> Option<Seq<char>>
    decreases name.len(),
{
    if name.len() < 2 {
        None
    } else if name.last() == '.' {
        Some(Seq::<char>::empty())
    } else {
        match after_dot(name.drop_last()) {
            Some(e) => Some(e.push(name.last())),
            None => None,
        }
    }
}

/// The extension of the file that a path names, if it has one.
pub open spec fn extension(path: Seq<char>) -> Option<Seq<char>> {
    match last_name(text::split_on(path, '/')) {
        Some(n) => if n == ".."@ {
            None
        } else {
            after_dot(n)
        },
        None => None,
    }
}

fn extension_in(name: &Vec<char>) -> (r: Option<Vec<char>>)
    ensures
        match r {
            Some(e) => after_dot(name@) == Some(e@),
            None => after_dot(name@) is None,
        },
{
    let n: usize = name.len();
    let mut i: usize = n;
    assert(name@.take(n as int) =~= name@);
    assert(name@.skip(n as int) =~= Seq::<char>::empty());
    proof {
        lemma_after_dot(name@, n as int);
    }
    while i > 1
        invariant
            i <= n,
            n == name@.len(),
            match after_dot(name@.take(i as int)) {
                Some(e) => after_dot(name@) == Some(e + name@.skip(i as int)),
                None => after_dot(name@) is None,
            },
        decreases i,
    {
        let ghost t = name@.take(i as int);
        assert(t.last() == name@[i - 1]);
        assert(t.drop_last() =~= name@.take(i - 1));
        if name[i - 1] == '.' {
            let e = text::slice_of(name, i, n);
            assert(e@ =~= Seq::<char>::empty() + name@.skip(i as int));
            return Some(e);
        }
        i -= 1;
        proof {
            if let Some(e) = after_dot(name@.take(i as int)) {
                assert(e.push(t.last()) + name@.skip(i + 1) =~= e + name@.skip(i as int));
            }
        }
    }
    None
}

proof fn lemma_after_dot(name: Seq<char>, n: int)
    requires
        n == name.len(),
    ensures
        match after_dot(name.take(n)) {
            Some(e) => after_dot(name) == Some(e + name.skip(n)),
            None => after_dot(name) is None,
        },
{
    assert(name.take(n) =~= name);
    if let Some(e) = after_dot(name) {
        assert(e + name.skip(n) =~= e);
    }
}

/// The extension of the file that `path` names.
pub fn extension_of(path: &str) -> (r: Option<String>)
    ensures
        text::opt_text(r) == extension(path@),
{
    let parts = text::split_chars(&text::chars_of(path), '/');
    let ghost gp = text::deep(parts@);
    let mut n: usize = parts.len();
    assert(gp.take(n as int) =~= gp);
    let dot = text::chars_of(".");
    while n > 0
        invariant
            n <= parts@.len(),
            gp == text::deep(parts@),
            gp == text::split_on(path@, '/'),
            dot@ == "."@,
            last_name(gp) == last_name(gp.take(n as int)),
        decreases n,
    {
        assert(gp.take(n as int).last() == parts@[n - 1]@);
        assert(gp.take(n as int).drop_last() =~= gp.take(n - 1));
        let part = &parts[n - 1];
        if part.len() > 0 && !text::same_chars(part, &dot) {
            let up = text::chars_of("..");
            if text::same_chars(part, &up) {
                return None;
            }
            return match extension_in(part) {
                Some(e) => Some(text::string_of(&e)),
                None => None,
            };
        }
        n -= 1;
    }
    None
}

/// The extension of a file is what stands behind the last dot of its name, and a name
/// that begins with its only dot has none: where `name` is the last part of the path
/// that names anything, `name` is a stem, a dot and the extension.
pub proof fn law_extension_follows_the_last_dot(
    path: Seq<char>,
    stem: Seq<char>,
    ext: Seq<char>,
)
    requires
        stem.len() > 0,
        text::free_of(ext, '.'),
        text::free_of(ext, '/'),
        text::free_of(stem, '/'),
        stem.push('.') + ext != ".."@,
        path == stem.push('.') + ext || exists|dir: Seq<char>| path == #[trigger] dir.push('/') + (
        stem.push('.') + ext),
    ensures
        extension(path) == Some(ext),
{
    let name = stem.push('.') + ext;
    let parts = text::split_on(path, '/');
    assert(text::free_of(name, '/')) by {
        if name.contains('/') {
            let i = choose|i: int| 0 <= i < name.len() && name[i] == '/';
            if i < stem.len() {
                assert(stem[i] == '/');
            } else if i > stem.len() {
                assert(ext[i - stem.len() - 1] == '/');
            }
        }
    }
    if path == name {
        text::lemma_split_free(name, '/');
    } else {
        let dir = choose|dir: Seq<char>| path == #[trigger] dir.push('/') + name;
        text::lemma_split_append(dir, name, '/');
    }
    assert(parts.last() == name);
    reveal_strlit(".");
    assert(names(name));
    lemma_dot_found(stem, ext);
}

proof fn lemma_dot_found(stem: Seq<char>, ext: Seq<char>)
    requires
        stem.len() > 0,
        text::free_of(ext, '.'),
    ensures
        after_dot(stem.push('.') + ext) == Some(ext),
    decreases ext.len(),
{
    let name = stem.push('.') + ext;
    if ext.len() == 0 {
        assert(name =~= stem.push('.'));
        assert(ext =~= Seq::<char>::empty());
    } else {
        let init = ext.drop_last();
        assert(ext.contains(ext[ext.len() - 1]));
        assert(text::free_of(init, '.')) by {
            if init.contains('.') {
                let i = choose|i: int| 0 <= i < init.len() && init[i] == '.';
                assert(ext[i] == '.');
            }
        }
        lemma_dot_found(stem, init);
        assert(name.drop_last() =~= stem.push('.') + init);
        assert(init.push(ext.last()) =~= ext);
    }
}

/// A name without a dot behind its first character has no extension.
pub proof fn law_a_name_without_dots_has_no_extension(name: Seq<char>)
    requires
        text::free_of(name, '/'),
        forall|i: int| 1 <= i < name.len() ==> #[trigger] name[i] != '.',
    ensures
        extension(name) is None,
{
    text::lemma_split_free(name, '/');
    lemma_no_dot(name);
    let parts = text::split_on(name, '/');
    assert(parts.drop_last() =~= Seq::<Seq<char>>::empty());
    assert(last_name(parts.drop_last()) is None);
    assert(parts.last() == name);
}

proof fn lemma_no_dot(name: Seq<char>)
    requires
        forall|i: int| 1 <= i < name.len() ==> #[trigger] name[i] != '.',
    ensures
        after_dot(name) is None,
    decreases name.len(),
{
    if name.len() >= 2 {
        let init = name.drop_last();
        assert(name[name.len() - 1] != '.');
        assert forall|i: int| 1 <= i < init.len() implies #[trigger] init[i] != '.' by {
            assert(init[i] == name[i]);
        }
        lemma_no_dot(init);
    }
}

} // verus!
