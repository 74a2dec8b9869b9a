//! Paths with `/` between their components.
use crate::text;
use crate::text::{chars_of, cut_at_last, spells, string_of};
use vstd::prelude::*;
use vstd::slice::*;
use vstd::string::*;

verus! {

/// A path without what does not change where it leads: the `/` and `/.` at its end.
pub open spec fn tidy(p: Seq<char>) -> Seq<char>
    decreases p.len(),
{
    if p.len() > 0 && p.last() == '/' {
        tidy(p.drop_last())
    } else if p.len() >= 2 && p.last() == '.' && p[p.len() - 2] == '/' {
        tidy(p.take(p.len() - 2))
    } else {
        p
    }
}

/// What stands behind the last `/`.
pub open spec fn last_component(p: Seq<char>) -> Seq<char> {
    p.skip(text::last_index(p, '/') + 1)
}

/// The name of the file that a path leads to, if its last component is a name.
pub open spec fn file_name(p: Seq<char>) -> Option<Seq<char>> {
    let name = last_component(tidy(p));
    if name.len() == 0 || name == "."@ || name == ".."@ {
        None
    } else {
        Some(name)
    }
}

/// What stands behind the last `.` of the file's name, if that is not at its start.
pub open spec fn extension(p: Seq<char>) -> Option<Seq<char>> {
    match file_name(p) {
        Some(name) => {
            let dot = text::last_index(name, '.');
            if dot <= 0 {
                None
            } else {
                Some(name.skip(dot + 1))
            }
        },
        None => None,
    }
}

fn tidied(p: &[char]) -> (r: &[char])
    ensures
        r@ == tidy(p@),
{
    let mut n: usize = p.len();
    assert(p@.take(n as int) =~= p@);
    while n > 0 && (p[n - 1] == '/' || (n >= 2 && p[n - 1] == '.' && p[n - 2] == '/'))
        invariant
            n <= p@.len(),
            tidy(p@.take(n as int)) == tidy(p@),
        decreases n,
    {
        let ghost here = p@.take(n as int);
        assert(here.last() == p@[n - 1]);
        if p[n - 1] == '/' {
            assert(here.drop_last() =~= p@.take(n - 1));
            n -= 1;
        } else {
            assert(here[here.len() - 2] == p@[n - 2]);
            assert(here.take(here.len() - 2) =~= p@.take(n - 2));
            n -= 2;
        }
    }
    let r = slice_subrange(p, 0, n);
    proof {
        let here = p@.take(n as int);
        assert(r@ =~= here);
        if n > 0 {
            assert(here.last() == p@[n - 1]);
        }
        if n >= 2 {
            assert(here[here.len() - 2] == p@[n - 2]);
        }
    }
    r
}

fn name_behind(p: &[char]) -> (r: &[char])
    ensures
        r@ == last_component(p@),
{
    proof {
        text::lemma_last_index_meaning(p@, '/');
    }
    match cut_at_last(p, '/') {
        Some((_, name)) => name,
        None => {
            assert(p@.skip(0) =~= p@);
            p
        },
    }
}

/// What stands behind the last `.` of the name of the file, if that is not at its start.
pub fn extension_of(path: &str) -> (r: Option<String>)
    ensures
        match r {
            Some(s) => extension(path@) == Some(s@),
            None => extension(path@) is None,
        },
{
    let chars: Vec<char> = chars_of(path);
    let name = name_behind(tidied(chars.as_slice()));
    if name.len() == 0 || spells(name, ".") || spells(name, "..") {
        return None;
    }
    proof {
        text::lemma_last_index_meaning(name@, '.');
    }
    match cut_at_last(name, '.') {
        Some((before, after)) => {
            if before.len() == 0 {
                None
            } else {
                Some(string_of(after))
            }
        },
        None => None,
    }
}

/// The path of a file of a relative name in a directory.
pub open spec fn join_path(dir: Seq<char>, name: Seq<char>) -> Seq<char> {
    if dir.len() == 0 || dir.last() == '/' {
        dir + name
    } else {
        dir.push('/') + name
    }
}

/// The path of a file of a relative name in a directory.
pub fn joined_path(dir: &str, name: &str) -> (r: String)
    ensures
        r@ == join_path(dir@, name@),
{
    let chars: Vec<char> = chars_of(dir);
    let mut r: String = dir.to_string();
    if chars.len() > 0 && chars[chars.len() - 1] != '/' {
        r.push('/');
    }
    r.append(name);
    r
}

/// A file of a plain name in a directory is found there under that name.
pub proof fn lemma_joined_file_name(dir: Seq<char>, name: Seq<char>)
    requires
        name.len() > 0,
        name.last() != '.',
        forall|i: int| 0 <= i < name.len() ==> #[trigger] name[i] != '/',
    ensures
        file_name(join_path(dir, name)) == Some(name),
        dir.is_prefix_of(join_path(dir, name)),
{
    let p = join_path(dir, name);
    let k: int = p.len() - name.len();
    assert(p.last() == name.last());
    assert(name[name.len() - 1] != '/');
    assert(tidy(p) == p);
    assert(p.skip(k) =~= name);
    text::lemma_last_index_meaning(p, '/');
    let at = text::last_index(p, '/');
    if at >= k {
        assert(p[at] == name[at - k]);
    }
    if k > 0 {
        assert(p[k - 1] == '/');
    }
    assert(at == k - 1);
    assert(last_component(p) =~= name);
    reveal_strlit(".");
    reveal_strlit("..");
}

/// The extension of a file is what stands behind the last dot of its name, whatever directory it
/// is in; a name without a dot, or with none but at its start, has no extension.
pub proof fn law_extension_follows_the_last_dot(dir: Seq<char>, stem: Seq<char>, ext: Seq<char>)
    requires
        !stem.contains('/'),
        stem.len() > 0,
    ensures
        ext.len() > 0 && !ext.contains('/') && !ext.contains('.') ==> extension(
            join_path(dir, stem + seq!['.'] + ext),
        ) == Some(ext),
        !stem.skip(1).contains('.') && stem != seq!['.'] ==> extension(join_path(dir, stem)) is None,
{
    if ext.len() > 0 && !ext.contains('/') && !ext.contains('.') {
        let name = stem + seq!['.'] + ext;
        assert(name.last() == ext.last());
        assert(ext.contains(ext.last()));
        assert forall|i: int| 0 <= i < name.len() implies #[trigger] name[i] != '/' by {
            if i < stem.len() {
                assert(stem.contains(stem[i]));
            } else if i > stem.len() {
                assert(ext.contains(ext[i - stem.len() - 1]));
            }
        }
        lemma_joined_file_name(dir, name);
        text::lemma_last_index_meaning(name, '.');
        let dot = text::last_index(name, '.');
        assert(name[stem.len() as int] == '.');
        if dot > stem.len() {
            assert(ext.contains(ext[dot - stem.len() - 1]));
        }
        assert(dot == stem.len());
        assert(name.skip(dot + 1) =~= ext);
    }
    if !stem.skip(1).contains('.') && stem != seq!['.'] {
        assert forall|i: int| 0 <= i < stem.len() implies #[trigger] stem[i] != '/' by {
            assert(stem.contains(stem[i]));
        }
        assert(stem.last() != '.') by {
            if stem.len() > 1 {
                assert(stem.skip(1)[stem.len() - 2] == stem.last());
                assert(stem.skip(1).contains(stem.skip(1)[stem.len() - 2]));
            } else if stem.last() == '.' {
                assert(stem =~= seq!['.']);
            }
        }
        lemma_joined_file_name(dir, stem);
        text::lemma_last_index_meaning(stem, '.');
        let dot = text::last_index(stem, '.');
        if dot > 0 {
            assert(stem.skip(1)[dot - 1] == '.');
            assert(stem.skip(1).contains('.'));
        }
    }
}

/// A name is put behind a directory with one slash between them; an empty directory adds nothing.
pub proof fn law_one_slash_joins(dir: Seq<char>, name: Seq<char>)
    ensures
        dir.len() > 0 && dir.last() != '/' ==> join_path(dir, name) == dir + seq!['/'] + name,
        join_path(dir + seq!['/'], name) == dir + seq!['/'] + name,
        join_path(Seq::empty(), name) == name,
{
    assert((dir + seq!['/']).last() == '/');
    assert(dir.push('/') + name =~= dir + seq!['/'] + name);
    assert(Seq::<char>::empty() + name =~= name);
}

/// A `/` or a `/.` at the end of a path says nothing of the file.
pub proof fn law_what_trails_is_left_out(p: Seq<char>)
    ensures
        file_name(p + seq!['/']) == file_name(p),
        file_name(p + seq!['/', '.']) == file_name(p),
        extension(p + seq!['/']) == extension(p),
        extension(p + seq!['/', '.']) == extension(p),
{
    let a = p + seq!['/'];
    assert(a.last() == '/');
    assert(a.drop_last() =~= p);
    assert(tidy(a) == tidy(p));
    let b = p + seq!['/', '.'];
    assert(b.last() == '.' && b[b.len() - 2] == '/');
    assert(b.take(b.len() - 2) =~= p);
    assert(tidy(b) == tidy(p));
}

}
