//! Unix paths as strings: their components, joining, lexical
//! normalization, the file extension, and the configuration format a file
//! name selects.

use vstd::prelude::*;
use vstd::string::*;
use crate::error::LccpError;
use crate::text::{append_str, chars_of, chars_eq_str, copy_str, push_char, str_eq};
use crate::tree::{lemma_split_on_len, split_on, split_on_char, strings_model};

verus! {

broadcast use vstd::std_specs::vec::group_vec_axioms;

/// A component of a path: the root `/`, a leading `.`, `..`, or a name.
pub enum Comp {
    Root,
    Cur,
    Parent,
    Normal(Seq<char>),
}

/// An executable path component.
#[derive(Debug)]
pub enum PathComp {
    Root,
    Cur,
    Parent,
    Normal(String),
}

impl View for PathComp {
    type V = Comp;

    open spec fn view(&self) -> Comp {
        match self {
            PathComp::Root => Comp::Root,
            PathComp::Cur => Comp::Cur,
            PathComp::Parent => Comp::Parent,
            PathComp::Normal(n) => Comp::Normal(n@),
        }
    }
}

/// The models of a sequence of components.
pub open spec fn comps_view(v: Seq<PathComp>) -> Seq<Comp> {
    v.map_values(|c: PathComp| c@)
}

/// A path is absolute when it starts with `/`.
pub open spec fn is_absolute_path(p: Seq<char>) -> bool {
    p.len() > 0 && p[0] == '/'
}

/// The component that one piece between slashes contributes: none for an
/// empty piece or `.`, `..` for `..`, a name otherwise.
pub open spec fn piece_comps(x: Seq<char>) -> Seq<Comp> {
    if x.len() == 0 || x == "."@ {
        Seq::empty()
    } else if x == ".."@ {
        seq![Comp::Parent]
    } else {
        seq![Comp::Normal(x)]
    }
}

/// The components contributed by pieces between slashes, in order.
pub open spec fn body_comps(pieces: Seq<Seq<char>>) -> Seq<Comp>
    decreases pieces.len(),
{
    if pieces.len() == 0 {
        Seq::empty()
    } else {
        body_comps(pieces.drop_last()) + piece_comps(pieces.last())
    }
}

/// The components of a path: the root for an absolute path, `.` for a
/// relative path whose first piece is `.`, then the pieces between slashes
/// other than empty ones and `.`.
pub open spec fn path_components(p: Seq<char>) -> Seq<Comp> {
    let pieces = split_on(p, '/');
    if is_absolute_path(p) {
        seq![Comp::Root] + body_comps(pieces.drop_first())
    } else if pieces[0] == "."@ {
        seq![Comp::Cur] + body_comps(pieces.drop_first())
    } else {
        body_comps(pieces)
    }
}

/// Lexical normalization of components: whether the result is rooted, and
/// its names. `.` is dropped, `..` removes the last name (if any), the root
/// starts over from `/`.
pub open spec fn normalize_comps(c: Seq<Comp>) -> (bool, Seq<Seq<char>>)
    decreases c.len(),
{
    if c.len() == 0 {
        (false, Seq::empty())
    } else {
        let (abs, names) = normalize_comps(c.drop_last());
        match c.last() {
            Comp::Root => (true, Seq::empty()),
            Comp::Cur => (abs, names),
            Comp::Parent => (abs, if names.len() > 0 {
                names.drop_last()
            } else {
                names
            }),
            Comp::Normal(n) => (abs, names.push(n)),
        }
    }
}

/// Names joined by `/`.
pub open spec fn join_names(names: Seq<Seq<char>>) -> Seq<char>
    decreases names.len(),
{
    if names.len() == 0 {
        Seq::empty()
    } else if names.len() == 1 {
        names[0]
    } else {
        join_names(names.drop_last()).push('/') + names.last()
    }
}

/// The text of a normalized path.
pub open spec fn render_normalized(n: (bool, Seq<Seq<char>>)) -> Seq<char> {
    if n.0 {
        seq!['/'] + join_names(n.1)
    } else {
        join_names(n.1)
    }
}

/// The lexically normalized text of a path.
pub open spec fn normalize_text(p: Seq<char>) -> Seq<char> {
    render_normalized(normalize_comps(path_components(p)))
}

/// `base` joined with `rest`: `rest` itself when it is absolute or `base`
/// is empty; otherwise the two with one `/` between them (none is added
/// after a trailing `/`).
pub open spec fn join_text(base: Seq<char>, rest: Seq<char>) -> Seq<char> {
    if is_absolute_path(rest) || base.len() == 0 {
        rest
    } else if base.last() == '/' {
        base + rest
    } else {
        base.push('/') + rest
    }
}

/// The components of the directory holding the file at `p`: all but the
/// last component, or `.` when there is no such directory.
pub open spec fn parent_comps(c: Seq<Comp>) -> Seq<Comp> {
    if c.len() > 0 && !(c.last() is Root) {
        c.drop_last()
    } else {
        seq![Comp::Cur]
    }
}

/// The installation's `etc` directory for an executable at `exe`: `../etc`
/// relative to the directory holding it, normalized lexically.
pub open spec fn install_dir_text(exe: Seq<char>) -> Seq<char> {
    render_normalized(normalize_comps(parent_comps(path_components(exe)) + seq![Comp::Parent, Comp::Normal("etc"@)]))
}

/// The last index of `c` in `s`, if any.
pub open spec fn last_index_of(s: Seq<char>, c: char) -> Option<int>
    decreases s.len(),
{
    if s.len() == 0 {
        None
    } else if s.last() == c {
        Some(s.len() - 1)
    } else {
        last_index_of(s.drop_last(), c)
    }
}

/// The file name of a path: its last component when that is a name.
pub open spec fn file_name(p: Seq<char>) -> Option<Seq<char>> {
    let c = path_components(p);
    if c.len() > 0 && c.last() is Normal {
        Some(c.last()->Normal_0)
    } else {
        None
    }
}

/// The extension of a path: what follows the last `.` of the file name,
/// unless the name has no `.` or its last `.` is its first character (a
/// name like `.profile`).
pub open spec fn extension(p: Seq<char>) -> Option<Seq<char>> {
    match file_name(p) {
        None => None,
        Some(n) => match last_index_of(n, '.') {
            None => None,
            Some(i) => if i == 0 {
                None
            } else {
                Some(n.skip(i + 1))
            },
        },
    }
}

/// The format of a configuration file, chosen by its extension.
#[derive(Debug, Clone, Copy, PartialEq, Eq, Structural)]
pub enum ConfigFormat {
    Json,
    Toml,
}

/// The format that a path's extension selects, if any.
pub open spec fn format_of(p: Seq<char>) -> Option<ConfigFormat> {
    match extension(p) {
        Some(e) => if e == "json"@ {
            Some(ConfigFormat::Json)
        } else if e == "toml"@ {
            Some(ConfigFormat::Toml)
        } else {
            None
        },
        None => None,
    }
}

/// Whether `p` starts with `/`.
pub fn is_absolute(p: &str) -> (r: bool)
    ensures
        r == is_absolute_path(p@),
{
    p.unicode_len() > 0 && p.get_char(0) == '/'
}

fn piece_comp(x: &String, out: &mut Vec<PathComp>)
    ensures
        comps_view(final(out)@) == comps_view(old(out)@) + piece_comps(x@),
{
    let ghost start = out@;
    let v = chars_of(x.as_str());
    if v.len() == 0 || chars_eq_str(&v, ".") {
    } else if chars_eq_str(&v, "..") {
        out.push(PathComp::Parent);
    } else {
        out.push(PathComp::Normal(copy_str(x.as_str())));
    }
    proof {
        assert(comps_view(out@) =~= comps_view(start) + piece_comps(x@));
    }
}

/// The components of a path (see `path_components`).
pub fn components(p: &str) -> (r: Vec<PathComp>)
    ensures
        comps_view(r@) == path_components(p@),
{
    let pieces = split_on_char(p, '/');
    let ghost ps = strings_model(pieces@);
    proof { lemma_split_on_len(p@, '/'); }
    let mut out: Vec<PathComp> = Vec::new();
    let mut start: usize = 0;
    let abs = is_absolute(p);
    if abs {
        out.push(PathComp::Root);
        start = 1;
    } else if str_eq(pieces[0].as_str(), ".") {
        out.push(PathComp::Cur);
        start = 1;
    }
    let ghost head = comps_view(out@);
    proof {
        assert(ps.subrange(start as int, start as int) =~= Seq::<Seq<char>>::empty());
        assert(comps_view(out@) =~= head + body_comps(ps.subrange(start as int, start as int)));
    }
    let mut i = start;
    while i < pieces.len()
        invariant
            ps == strings_model(pieces@),
            start <= i <= pieces@.len(),
            comps_view(out@) == head + body_comps(ps.subrange(start as int, i as int)),
        decreases pieces@.len() - i,
    {
        let ghost before = comps_view(out@);
        piece_comp(&pieces[i], &mut out);
        proof {
            assert(ps.subrange(start as int, i + 1).drop_last() =~= ps.subrange(start as int, i as int));
            assert(ps.subrange(start as int, i + 1).last() == pieces@[i as int]@);
            assert(comps_view(out@) =~= head + body_comps(ps.subrange(start as int, i + 1)));
        }
        i = i + 1;
    }
    proof {
        if start == 1 {
            assert(ps.subrange(1, ps.len() as int) =~= ps.drop_first());
            if !abs {
                assert(pieces@[0]@ == "."@);
            }
        } else {
            assert(ps.subrange(0, ps.len() as int) =~= ps);
            assert(head =~= Seq::<Comp>::empty());
            assert(Seq::<Comp>::empty() + body_comps(ps) =~= body_comps(ps));
        }
    }
    out
}

/// Normalizes components lexically (see `normalize_comps`); returns
/// whether the result is rooted and its names.
pub fn normalize_components(c: &Vec<PathComp>) -> (r: (bool, Vec<String>))
    ensures
        (r.0, strings_model(r.1@)) == normalize_comps(comps_view(c@)),
{
    let ghost cv = comps_view(c@);
    let mut abs = false;
    let mut names: Vec<String> = Vec::new();
    proof {
        assert(cv.take(0) =~= Seq::<Comp>::empty());
        assert(strings_model(names@) =~= Seq::<Seq<char>>::empty());
    }
    for i in 0..c.len()
        invariant
            cv == comps_view(c@),
            (abs, strings_model(names@)) == normalize_comps(cv.take(i as int)),
    {
        proof {
            assert(cv.take(i + 1).drop_last() =~= cv.take(i as int));
            assert(cv.take(i + 1).last() == c@[i as int]@);
        }
        let ghost before = strings_model(names@);
        match &c[i] {
            PathComp::Root => {
                abs = true;
                names = Vec::new();
                proof { assert(strings_model(names@) =~= Seq::<Seq<char>>::empty()); }
            },
            PathComp::Cur => {},
            PathComp::Parent => {
                if names.len() > 0 {
                    names.pop();
                    proof { assert(strings_model(names@) =~= before.drop_last()); }
                }
            },
            PathComp::Normal(n) => {
                names.push(copy_str(n.as_str()));
                proof { assert(strings_model(names@) =~= before.push(n@)); }
            },
        }
    }
    proof {
        assert(cv.take(cv.len() as int) == cv);
    }
    (abs, names)
}

/// The text of a normalized path (see `render_normalized`).
pub fn render_normal(abs: bool, names: &Vec<String>) -> (r: String)
    ensures
        r@ == render_normalized((abs, strings_model(names@))),
{
    let ghost nv = strings_model(names@);
    let mut out = String::new();
    if abs {
        push_char(&mut out, '/');
    }
    let ghost head = out@;
    proof {
        assert(nv.take(0) =~= Seq::<Seq<char>>::empty());
        assert(out@ =~= head + join_names(nv.take(0)));
    }
    for i in 0..names.len()
        invariant
            nv == strings_model(names@),
            out@ == head + join_names(nv.take(i as int)),
    {
        proof {
            assert(nv.take(i + 1).drop_last() =~= nv.take(i as int));
            assert(nv.take(i + 1).last() == names@[i as int]@);
        }
        if i > 0 {
            push_char(&mut out, '/');
        }
        append_str(&mut out, names[i].as_str());
        proof {
            if i == 0 {
                assert(nv.take(1).len() == 1);
            }
            assert(out@ =~= head + join_names(nv.take(i + 1)));
        }
    }
    proof {
        assert(nv.take(nv.len() as int) == nv);
        assert(out@ =~= render_normalized((abs, nv)));
    }
    out
}

/// The lexically normalized text of a path (see `normalize_text`).
pub fn normalize_path(p: &str) -> (r: String)
    ensures
        r@ == normalize_text(p@),
{
    let c = components(p);
    let (abs, names) = normalize_components(&c);
    render_normal(abs, &names)
}

/// `base` joined with `rest` (see `join_text`).
pub fn join_path(base: &str, rest: &str) -> (r: String)
    ensures
        r@ == join_text(base@, rest@),
{
    let n = base.unicode_len();
    if is_absolute(rest) || n == 0 {
        copy_str(rest)
    } else {
        let mut s = copy_str(base);
        if base.get_char(n - 1) != '/' {
            push_char(&mut s, '/');
        }
        append_str(&mut s, rest);
        s
    }
}

/// The installation's `etc` directory for an executable at `exe` (see
/// `install_dir_text`).
pub fn install_dir(exe: &str) -> (r: String)
    ensures
        r@ == install_dir_text(exe@),
{
    let mut c = components(exe);
    let n = c.len();
    let keep = n > 0 && !matches!(c[n - 1], PathComp::Root);
    if keep {
        c.pop();
    } else {
        c = Vec::new();
        c.push(PathComp::Cur);
    }
    let ghost base = comps_view(c@);
    proof {
        assert(base =~= parent_comps(path_components(exe@)));
    }
    c.push(PathComp::Parent);
    c.push(PathComp::Normal(copy_str("etc")));
    proof {
        assert(comps_view(c@) =~= base + seq![Comp::Parent, Comp::Normal("etc"@)]);
    }
    let (abs, names) = normalize_components(&c);
    render_normal(abs, &names)
}

/// The last index of `c` in `v`, if any.
fn last_index(v: &Vec<char>, c: char) -> (r: Option<usize>)
    ensures
        match r {
            Some(i) => last_index_of(v@, c) == Some(i as int) && i < v@.len(),
            None => last_index_of(v@, c) is None,
        },
{
    let mut i = v.len();
    proof {
        assert(v@.take(i as int) =~= v@);
    }
    while i > 0
        invariant
            i <= v@.len(),
            last_index_of(v@, c) == last_index_of(v@.take(i as int), c),
        decreases i,
    {
        proof {
            assert(v@.take(i as int).drop_last() =~= v@.take(i - 1));
            assert(v@.take(i as int).last() == v@[i - 1]);
        }
        if v[i - 1] == c {
            return Some(i - 1);
        }
        i = i - 1;
    }
    None
}

/// The extension of a path (see `extension`).
pub fn path_extension(p: &str) -> (r: Option<String>)
    ensures
        match r {
            Some(e) => extension(p@) == Some(e@),
            None => extension(p@) is None,
        },
{
    let c = components(p);
    let n = c.len();
    if n == 0 {
        return None;
    }
    match &c[n - 1] {
        PathComp::Normal(name) => {
            proof {
                assert(comps_view(c@).last() == c@[n - 1]@);
            }
            let v = chars_of(name.as_str());
            match last_index(&v, '.') {
                None => None,
                Some(i) => {
                    if i == 0 {
                        None
                    } else {
                        assert(i < v.len());
                        let e = crate::text::string_of_range(&v, i + 1, v.len());
                        proof {
                            assert(v@.subrange(i + 1, v@.len() as int) =~= v@.skip(i + 1));
                        }
                        Some(e)
                    }
                },
            }
        },
        _ => {
            proof {
                assert(comps_view(c@).last() == c@[n - 1]@);
            }
            None
        },
    }
}

/// The format of a configuration file by its extension: `.json` or
/// `.toml`; any other is an error naming the path.
pub fn config_format(path: &str) -> (r: Result<ConfigFormat, LccpError>)
    ensures
        match r {
            Ok(f) => format_of(path@) == Some(f),
            Err(e) => format_of(path@) is None && (e matches LccpError::UnsupportedConfigFormat(p) && p@ == path@),
        },
{
    match path_extension(path) {
        Some(e) => {
            if str_eq(e.as_str(), "json") {
                Ok(ConfigFormat::Json)
            } else if str_eq(e.as_str(), "toml") {
                Ok(ConfigFormat::Toml)
            } else {
                Err(LccpError::UnsupportedConfigFormat(copy_str(path)))
            }
        },
        None => Err(LccpError::UnsupportedConfigFormat(copy_str(path))),
    }
}

} // verus!
