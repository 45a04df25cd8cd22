//! `VirtPath`: a file system path anchored at a root it cannot leave.
//!
//! A path is a named root directory, a locked part below the root that
//! `..` cannot remove, and a free part that `..` steps back through.
use vstd::prelude::*;

use crate::text::{chars_of, push_char, push_str, str_eq, string_of, to_owned_string};

verus! {

/// A path as plain values.
pub struct PathModel {
    pub name: Seq<char>,
    pub root: Seq<char>,
    pub locked: Seq<Seq<char>>,
    pub parts: Seq<Seq<char>>,
}

impl PathModel {
    /// The same location with its position as the new boundary for `..`.
    pub open spec fn locked_here(self) -> PathModel {
        PathModel { name: self.name, root: self.root, locked: self.locked + self.parts, parts: seq![] }
    }
}

/// The characters of each string in a vector.
pub open spec fn strings_view(v: Seq<String>) -> Seq<Seq<char>> {
    v.map_values(|s: String| s@)
}

/// A path, anchored at `root` under the name `name`.
#[derive(Clone, Debug, PartialEq, Eq, Hash)]
pub struct VirtPath {
    pub name: String,
    pub root: String,
    pub locked_parts: Vec<String>,
    pub parts: Vec<String>,
}

impl View for VirtPath {
    type V = PathModel;

    closed spec fn view(&self) -> PathModel {
        PathModel {
            name: self.name@,
            root: self.root@,
            locked: strings_view(self.locked_parts@),
            parts: strings_view(self.parts@),
        }
    }
}

/// `PathBuf::push` of a relative component onto a path text.
pub open spec fn push_component(acc: Seq<char>, comp: Seq<char>) -> Seq<char> {
    if acc.len() == 0 {
        comp
    } else if acc.last() == '/' {
        acc + comp
    } else {
        acc + seq!['/'] + comp
    }
}

/// The path text of `base` with the components pushed in order.
pub open spec fn join(base: Seq<char>, comps: Seq<Seq<char>>) -> Seq<char>
    decreases comps.len(),
{
    if comps.len() == 0 {
        base
    } else {
        push_component(join(base, comps.drop_last()), comps.last())
    }
}

/// The file system text of a path.
pub open spec fn path_text(m: PathModel) -> Seq<char> {
    join(join(m.root, m.locked), m.parts)
}

/// The display text of a path: `[name]`, the locked components each after
/// a `/`, then `/$`, then the free components each after a `/`.
pub open spec fn display_text(m: PathModel) -> Seq<char> {
    seq!['['] + m.name + seq![']'] + slashed(m.locked) + seq!['/', '$'] + slashed(m.parts)
}

/// Each component preceded by `/`.
pub open spec fn slashed(comps: Seq<Seq<char>>) -> Seq<char>
    decreases comps.len(),
{
    if comps.len() == 0 {
        seq![]
    } else {
        slashed(comps.drop_last()) + seq!['/'] + comps.last()
    }
}

/// Position of the last `/` in `s`, if any.
pub open spec fn last_slash(s: Seq<char>, i: int) -> Option<int>
    decreases i,
{
    if i <= 0 {
        None
    } else if s[i - 1] == '/' {
        Some(i - 1)
    } else {
        last_slash(s, i - 1)
    }
}

/// A path text without the separators and `.` components it ends in, as
/// path components are read: `a/b/` and `a/b/.` are `a/b`; a lone `/`
/// stays.
pub open spec fn trim_tail(s: Seq<char>) -> Seq<char>
    decreases s.len(),
{
    if s.len() > 1 && s.last() == '/' {
        trim_tail(s.drop_last())
    } else if s.len() >= 2 && s.last() == '.' && s[s.len() - 2] == '/' {
        trim_tail(s.take(s.len() - 2))
    } else {
        s
    }
}

/// The parent directory text `d` of the path text `s`, trimmed: `/` where
/// nothing else is left of an absolute path.
pub open spec fn dir_text(s: Seq<char>, d: Seq<char>) -> Seq<char> {
    if trim_tail(d).len() == 0 && s.len() > 0 && s[0] == '/' {
        seq!['/']
    } else {
        trim_tail(d)
    }
}

/// The parent directory text and file name of a path text, read by
/// components: separators and `.` components at the end do not count, and
/// the parent of a file directly under `/` is `/`.
pub open spec fn split_file(s: Seq<char>) -> (Seq<char>, Seq<char>) {
    let t = trim_tail(s);
    match last_slash(t, t.len() as int) {
        Some(k) => (dir_text(s, t.subrange(0, k)), t.subrange(k + 1, t.len() as int)),
        None => (seq![], t),
    }
}

/// The end of `s[..n]` once the separators and `.` components it ends in
/// are dropped.
fn trimmed(s: &Vec<char>, n: usize) -> (res: usize)
    requires
        n <= s@.len(),
    ensures
        res <= n,
        s@.take(res as int) == trim_tail(s@.take(n as int)),
{
    let mut i = n;
    while (i > 1 && s[i - 1] == '/') || (i >= 2 && s[i - 1] == '.' && s[i - 2] == '/')
        invariant
            i <= n,
            n <= s@.len(),
            trim_tail(s@.take(i as int)) == trim_tail(s@.take(n as int)),
        decreases i,
    {
        let ghost t = s@.take(i as int);
        if s[i - 1] == '/' {
            assert(t.drop_last() =~= s@.take(i - 1));
            i = i - 1;
        } else {
            assert(t.take(t.len() - 2) =~= s@.take(i - 2));
            i = i - 2;
        }
    }
    i
}

/// `last_slash` of a prefix is that of the whole up to the prefix's end.
proof fn lemma_last_slash_take(s: Seq<char>, n: int, j: int)
    requires
        0 <= j <= n <= s.len(),
    ensures
        last_slash(s.take(n), j) == last_slash(s, j),
    decreases j,
{
    if j > 0 {
        lemma_last_slash_take(s, n, j - 1);
    }
}

/// The last `/` before `i` lies before `i`.
proof fn lemma_last_slash_range(s: Seq<char>, i: int)
    ensures
        last_slash(s, i) matches Some(k) ==> 0 <= k < i,
    decreases i,
{
    if i > 0 {
        lemma_last_slash_range(s, i - 1);
    }
}

/// Just past the last `/` of `s[..n]`, or 0 where it has none.
fn after_last_slash(s: &Vec<char>, n: usize) -> (res: usize)
    requires
        n <= s@.len(),
    ensures
        res <= n,
        match last_slash(s@, n as int) {
            Some(k) => res == k + 1,
            None => res == 0,
        },
{
    let mut i = n;
    while i > 0 && s[i - 1] != '/'
        invariant
            i <= n,
            n <= s@.len(),
            last_slash(s@, n as int) == last_slash(s@, i as int),
        decreases i,
    {
        i = i - 1;
    }
    i
}

/// The characters `s[a..b]`.
fn slice_chars(s: &Vec<char>, a: usize, b: usize) -> (res: Vec<char>)
    requires
        a <= b <= s@.len(),
    ensures
        res@ == s@.subrange(a as int, b as int),
{
    let mut out: Vec<char> = Vec::new();
    let mut k = a;
    while k < b
        invariant
            a <= k <= b,
            b <= s@.len(),
            out@ == s@.subrange(a as int, k as int),
        decreases b - k,
    {
        out.push(s[k]);
        k = k + 1;
    }
    out
}

/// A path text that ends in a file name.
pub open spec fn has_file_name(s: Seq<char>) -> bool {
    let name = split_file(s).1;
    name.len() > 0 && name != seq!['.'] && name != seq!['.', '.']
}

/// Path `p` moved from below `from` to below `to`: the components after
/// those of `from` follow those of `to`; `None` unless `p` lies below `from`.
pub open spec fn translated(p: PathModel, from: PathModel, to: PathModel) -> Option<PathModel> {
    if p.name == from.name && p.root == from.root && strip_prefix(p.locked + p.parts, from.locked + from.parts) is Some {
        Some(
            PathModel {
                name: to.name,
                root: to.root,
                locked: to.locked,
                parts: to.parts + strip_prefix(p.locked + p.parts, from.locked + from.parts)->0,
            },
        )
    } else {
        None
    }
}

/// Path `p` with the suffix `from` of its last component replaced by `to`;
/// `None` when it has no free component or the last one does not end so.
pub open spec fn retyped(p: PathModel, from: Seq<char>, to: Seq<char>) -> Option<PathModel> {
    if p.parts.len() > 0 && from.is_suffix_of(p.parts.last()) {
        Some(
            PathModel {
                parts: p.parts.drop_last().push(p.parts.last().subrange(0, p.parts.last().len() - from.len()) + to),
                ..p
            },
        )
    } else {
        None
    }
}

/// The suffix of `s` after the prefix `p`, when `p` is a prefix of `s`.
pub open spec fn strip_prefix<A>(s: Seq<A>, p: Seq<A>) -> Option<Seq<A>> {
    if p.len() <= s.len() && s.subrange(0, p.len() as int) == p {
        Some(s.skip(p.len() as int))
    } else {
        None
    }
}

/// Pushing a string pushes its characters onto the view.
pub proof fn lemma_strings_view_push(v: Seq<String>, x: String)
    ensures
        strings_view(v.push(x)) == strings_view(v).push(x@),
{
    assert(strings_view(v.push(x)) =~= strings_view(v).push(x@));
}

/// Taking one more element of a view pushes that element.
pub proof fn lemma_strings_view_take(v: Seq<String>, i: int)
    requires
        0 <= i < v.len(),
    ensures
        strings_view(v).take(i + 1) == strings_view(v).take(i).push(v[i]@),
{
    assert(strings_view(v).take(i + 1) =~= strings_view(v).take(i).push(v[i]@));
}

impl VirtPath {
    /// The path at the root `.` under `name`, with no components.
    pub fn new(name: &str) -> (res: VirtPath)
        ensures
            res@ == (PathModel { name: name@, root: seq!['.'], locked: seq![], parts: seq![] }),
    {
        let mut root = String::new();
        push_char(&mut root, '.');
        let res = VirtPath {
            name: to_owned_string(name),
            root,
            locked_parts: Vec::new(),
            parts: Vec::new(),
        };
        assert(res@.locked =~= Seq::<Seq<char>>::empty());
        assert(res@.parts =~= Seq::<Seq<char>>::empty());
        res
    }

    /// The same path with its current position as the new boundary for `..`.
    pub fn lock(self) -> (res: VirtPath)
        ensures
            res@ == (PathModel {
                name: self@.name,
                root: self@.root,
                locked: self@.locked + self@.parts,
                parts: seq![],
            }),
    {
        let mut res = self;
        let mut parts = Vec::new();
        std::mem::swap(&mut parts, &mut res.parts);
        res.locked_parts.append(&mut parts);
        assert(strings_view(res.locked_parts@) =~= self@.locked + self@.parts);
        assert(strings_view(res.parts@) =~= Seq::<Seq<char>>::empty());
        res
    }

    /// One step up; `None` at the locked boundary.
    pub fn parent(self) -> (res: Option<VirtPath>)
        ensures
            self@.parts.len() == 0 <==> res is None,
            res matches Some(p) ==> p@ == (PathModel {
                name: self@.name,
                root: self@.root,
                locked: self@.locked,
                parts: self@.parts.drop_last(),
            }),
    {
        let mut out = self;
        match out.parts.pop() {
            Some(_) => {
                assert(strings_view(out.parts@) =~= self@.parts.drop_last());
                Some(out)
            },
            None => None,
        }
    }

    /// One step along `elem`: `..` goes up, `.` stays, anything else goes down.
    pub fn step(self, elem: &str) -> (res: Option<VirtPath>)
        ensures
            elem@ == seq!['.', '.'] ==> (res is None <==> self@.parts.len() == 0),
            elem@ == seq!['.', '.'] ==> (res matches Some(p) ==> p@ == (PathModel {
                parts: self@.parts.drop_last(),
                ..self@
            })),
            elem@ == seq!['.'] ==> (res matches Some(p) && p@ == self@),
            elem@ != seq!['.', '.'] && elem@ != seq!['.'] ==> (res matches Some(p) && p@ == (
            PathModel { parts: self@.parts.push(elem@), ..self@ })),
    {
        let e = chars_of(elem);
        if e.len() == 2 && e[0] == '.' && e[1] == '.' {
            assert(elem@ =~= seq!['.', '.']);
            let r = self.parent();
            r
        } else if e.len() == 1 && e[0] == '.' {
            assert(elem@ =~= seq!['.']);
            Some(self)
        } else {
            assert(elem@ != seq!['.', '.']) by {
                if elem@ == seq!['.', '.'] {
                    assert(e@.len() == 2 && e@[0] == '.' && e@[1] == '.');
                }
            }
            assert(elem@ != seq!['.']) by {
                if elem@ == seq!['.'] {
                    assert(e@.len() == 1 && e@[0] == '.');
                }
            }
            let mut out = self;
            out.parts.push(to_owned_string(elem));
            assert(strings_view(out.parts@) =~= self@.parts.push(elem@));
            Some(out)
        }
    }

    /// A copy of the path.
    pub fn duplicate(&self) -> (res: VirtPath)
        ensures
            res@ == self@,
    {
        let res = VirtPath {
            name: to_owned_string(self.name.as_str()),
            root: to_owned_string(self.root.as_str()),
            locked_parts: concat_parts(&self.locked_parts, &Vec::new()),
            parts: concat_parts(&self.parts, &Vec::new()),
        };
        assert(strings_view(res.locked_parts@) =~= strings_view(self.locked_parts@));
        assert(strings_view(res.parts@) =~= strings_view(self.parts@));
        res
    }

    /// The path text: the root with the locked and free components pushed
    /// in order.
    pub fn to_path_buf(&self) -> (res: String)
        ensures
            res@ == join(join(self@.root, self@.locked), self@.parts),
    {
        let mut acc = to_owned_string(self.root.as_str());
        push_all(&mut acc, &self.locked_parts);
        push_all(&mut acc, &self.parts);
        acc
    }

    /// A path for a file: rooted at the file's directory, named `name`,
    /// with the file name as its only free component.
    pub fn virtualize(path: &str, name: &str) -> (res: VirtPath)
        requires
            has_file_name(path@),
        ensures
            res@ == (PathModel {
                name: name@,
                root: split_file(path@).0,
                locked: seq![],
                parts: seq![split_file(path@).1],
            }),
    {
        let s = chars_of(path);
        let tl = trimmed(&s, s.len());
        proof {
            assert(s@.take(s@.len() as int) =~= s@);
            lemma_last_slash_take(s@, tl as int, tl as int);
        }
        let start = after_last_slash(&s, tl);
        let file = slice_chars(&s, start, tl);
        let dir: Vec<char> = if start == 0 {
            Vec::new()
        } else {
            let dl = trimmed(&s, start - 1);
            proof {
                assert(s@.take(tl as int).subrange(0, start - 1) =~= s@.take(start - 1));
            }
            let d = if dl == 0 && s.len() > 0 && s[0] == '/' {
                vec!['/']
            } else {
                slice_chars(&s, 0, dl)
            };
            proof {
                assert(s@.take(dl as int) =~= s@.subrange(0, dl as int));
                assert(d@ =~= dir_text(s@, s@.take(start - 1)));
            }
            d
        };
        let mut parts: Vec<String> = Vec::new();
        parts.push(string_of(&file));
        let res = VirtPath {
            name: to_owned_string(name),
            root: string_of(&dir),
            locked_parts: Vec::new(),
            parts,
        };
        proof {
            let t = s@.take(tl as int);
            assert(file@ =~= t.subrange(start as int, t.len() as int));
            assert(trim_tail(path@) == t);
            assert(t.len() == tl);
            if start > 0 {
                assert(t.subrange(0, start - 1) =~= s@.take(start - 1));
                assert(last_slash(t, t.len() as int) == Some(start - 1));
                assert(dir@ == split_file(path@).0);
            } else {
                lemma_last_slash_range(s@, tl as int);
                assert(last_slash(t, t.len() as int) is None);
                assert(dir@ =~= split_file(path@).0);
            }
            assert(file@ == split_file(path@).1);
            assert(res@.locked =~= Seq::<Seq<char>>::empty());
            assert(res@.parts =~= seq![split_file(path@).1]);
        }
        res
    }

    /// The same location below `to` that `self` has below `from`; `None`
    /// when `self` is not below `from` (same name and root, and `from`'s
    /// components a prefix of `self`'s).
    #[verifier::loop_isolation(false)]
    pub fn translate(self, from: &VirtPath, to: &VirtPath) -> (res: Option<VirtPath>)
        ensures
            (self@.name == from@.name && self@.root == from@.root && strip_prefix(
                self@.locked + self@.parts,
                from@.locked + from@.parts,
            ) is Some) <==> res is Some,
            res matches Some(p) ==> p@ == (PathModel {
                name: to@.name,
                root: to@.root,
                locked: to@.locked,
                parts: to@.parts + strip_prefix(
                    self@.locked + self@.parts,
                    from@.locked + from@.parts,
                )->0,
            }),
    {
        if !str_eq(self.name.as_str(), from.name.as_str()) || !str_eq(
            self.root.as_str(),
            from.root.as_str(),
        ) {
            return None;
        }
        let self_path = concat_parts(&self.locked_parts, &self.parts);
        let from_path = concat_parts(&from.locked_parts, &from.parts);
        if from_path.len() > self_path.len() {
            return None;
        }
        let mut i: usize = 0;
        while i < from_path.len()
            invariant
                from_path@.len() <= self_path@.len(),
                i <= from_path@.len(),
                forall|j: int| 0 <= j < i ==> self_path@[j]@ == from_path@[j]@,
            decreases from_path.len() - i,
        {
            if !str_eq(self_path[i].as_str(), from_path[i].as_str()) {
                proof {
                    let a = strings_view(self_path@);
                    let b = strings_view(from_path@);
                    assert(a[i as int] == self_path@[i as int]@);
                    assert(b[i as int] == from_path@[i as int]@);
                    assert(a.subrange(0, b.len() as int)[i as int] != b[i as int]);
                    assert(a.subrange(0, b.len() as int) != b);
                    assert(a == self@.locked + self@.parts);
                    assert(b == from@.locked + from@.parts);
                }
                return None;
            }
            i = i + 1;
        }
        let mut new_parts: Vec<String> = Vec::new();
        let mut k: usize = 0;
        while k < to.parts.len()
            invariant
                k <= to.parts@.len(),
                strings_view(new_parts@) == strings_view(to.parts@).take(k as int),
            decreases to.parts.len() - k,
        {
            let ghost before = new_parts@;
            let x = to_owned_string(to.parts[k].as_str());
            new_parts.push(x);
            proof {
                lemma_strings_view_push(before, x);
                lemma_strings_view_take(to.parts@, k as int);
            }
            k = k + 1;
        }
        let mut m: usize = from_path.len();
        while m < self_path.len()
            invariant
                from_path@.len() <= m <= self_path@.len(),
                strings_view(new_parts@) == strings_view(to.parts@) + strings_view(
                    self_path@,
                ).subrange(from_path@.len() as int, m as int),
            decreases self_path.len() - m,
        {
            let ghost before = new_parts@;
            let x = to_owned_string(self_path[m].as_str());
            new_parts.push(x);
            proof {
                lemma_strings_view_push(before, x);
                assert(strings_view(self_path@)[m as int] == x@);
                assert(strings_view(new_parts@) =~= strings_view(to.parts@) + strings_view(
                    self_path@,
                ).subrange(from_path@.len() as int, m + 1));
            }
            m = m + 1;
        }
        proof {
            let a = strings_view(self_path@);
            let b = strings_view(from_path@);
            assert(a.subrange(0, b.len() as int) =~= b);
            assert(a.subrange(b.len() as int, a.len() as int) =~= a.skip(b.len() as int));
            assert(strings_view(to.parts@).take(to.parts@.len() as int) =~= strings_view(
                to.parts@,
            ));
        }
        let res = VirtPath {
            name: to_owned_string(to.name.as_str()),
            root: to_owned_string(to.root.as_str()),
            locked_parts: concat_parts(&to.locked_parts, &Vec::new()),
            parts: new_parts,
        };
        assert(strings_view(res.locked_parts@) =~= strings_view(to.locked_parts@));
        Some(res)
    }

    /// The path with the suffix `from` of its last free component replaced
    /// by `to`; `None` when there is no free component or it does not end
    /// in `from`.
    #[verifier::loop_isolation(false)]
    pub fn retype(self, from: &str, to: &str) -> (res: Option<VirtPath>)
        ensures
            (self@.parts.len() > 0 && from@.is_suffix_of(self@.parts.last())) <==> res is Some,
            res matches Some(p) ==> p@ == (PathModel {
                parts: self@.parts.drop_last().push(
                    self@.parts.last().subrange(0, self@.parts.last().len() - from@.len())
                        + to@,
                ),
                ..self@
            }),
    {
        let mut out = self;
        let ghost old_parts = strings_view(out.parts@);
        match out.parts.pop() {
            None => None,
            Some(last) => {
                let l = chars_of(last.as_str());
                let f = chars_of(from);
                assert(old_parts.last() == last@);
                if f.len() > l.len() {
                    return None;
                }
                let off = l.len() - f.len();
                let mut j: usize = off;
                while j < l.len()
                    invariant
                        off + f@.len() == l@.len(),
                        off <= j <= l@.len(),
                        l@ == last@,
                        f@ == from@,
                        forall|t: int| off <= t < j ==> l@[t] == f@[t - off],
                    decreases l.len() - j,
                {
                    if l[j] != f[j - off] {
                        assert(!from@.is_suffix_of(last@)) by {
                            if from@.is_suffix_of(last@) {
                                assert(last@.subrange(off as int, last@.len() as int)[j - off]
                                    == l@[j as int]);
                                assert(last@.subrange(off as int, last@.len() as int) == from@);
                            }
                        }
                        assert(old_parts.last() == last@);
                        return None;
                    }
                    j = j + 1;
                }
                assert(last@.subrange(off as int, last@.len() as int) =~= from@);
                let mut prefix: Vec<char> = Vec::new();
                let mut k: usize = 0;
                while k < off
                    invariant
                        off <= l@.len(),
                        k <= off,
                        prefix@ == l@.subrange(0, k as int),
                    decreases off - k,
                {
                    prefix.push(l[k]);
                    k = k + 1;
                }
                let mut newlast = string_of(&prefix);
                push_str(&mut newlast, to);
                out.parts.push(newlast);
                assert(old_parts.last() == last@);
                assert(strings_view(out.parts@) =~= old_parts.drop_last().push(
                    last@.subrange(0, last@.len() - from@.len()) + to@,
                ));
                Some(out)
            },
        }
    }

    /// The display text, e.g. `[root]/locked/$/free`.
    pub fn to_string(&self) -> (res: String)
        ensures
            res@ == display_text(self@),
    {
        let mut out = String::new();
        push_char(&mut out, '[');
        push_str(&mut out, self.name.as_str());
        push_char(&mut out, ']');
        let ghost a = out@;
        push_slashed(&mut out, &self.locked_parts);
        push_char(&mut out, '/');
        push_char(&mut out, '$');
        let ghost b = out@;
        push_slashed(&mut out, &self.parts);
        assert(out@ =~= display_text(self@));
        out
    }

    /// Whether two paths are the same (same name, root and components).
    pub fn same(&self, other: &VirtPath) -> (res: bool)
        ensures
            res == (self@ == other@),
    {
        let r = str_eq(self.name.as_str(), other.name.as_str()) && str_eq(
            self.root.as_str(),
            other.root.as_str(),
        ) && strings_eq(&self.locked_parts, &other.locked_parts) && strings_eq(
            &self.parts,
            &other.parts,
        );
        r
    }
}

/// Whether two string vectors hold the same strings.
pub fn strings_eq(a: &Vec<String>, b: &Vec<String>) -> (res: bool)
    ensures
        res == (strings_view(a@) == strings_view(b@)),
{
    if a.len() != b.len() {
        assert(strings_view(a@).len() != strings_view(b@).len());
        return false;
    }
    let mut i: usize = 0;
    while i < a.len()
        invariant
            a.len() == b.len(),
            i <= a.len(),
            forall|j: int| 0 <= j < i ==> a@[j]@ == b@[j]@,
        decreases a.len() - i,
    {
        if !str_eq(a[i].as_str(), b[i].as_str()) {
            assert(strings_view(a@)[i as int] != strings_view(b@)[i as int]);
            return false;
        }
        i = i + 1;
    }
    assert(strings_view(a@) =~= strings_view(b@));
    true
}

fn concat_parts(a: &Vec<String>, b: &Vec<String>) -> (res: Vec<String>)
    ensures
        strings_view(res@) == strings_view(a@) + strings_view(b@),
{
    let mut res: Vec<String> = Vec::new();
    let mut i: usize = 0;
    while i < a.len()
        invariant
            i <= a.len(),
            strings_view(res@) == strings_view(a@).take(i as int),
        decreases a.len() - i,
    {
        let ghost before = res@;
        let x = to_owned_string(a[i].as_str());
        res.push(x);
        proof {
            lemma_strings_view_push(before, x);
            lemma_strings_view_take(a@, i as int);
        }
        i = i + 1;
    }
    assert(strings_view(a@).take(a.len() as int) =~= strings_view(a@));
    let mut i: usize = 0;
    assert(strings_view(res@) =~= strings_view(a@) + strings_view(b@).take(0));
    while i < b.len()
        invariant
            i <= b.len(),
            strings_view(res@) == strings_view(a@) + strings_view(b@).take(i as int),
        decreases b.len() - i,
    {
        let ghost before = res@;
        let x = to_owned_string(b[i].as_str());
        res.push(x);
        proof {
            lemma_strings_view_push(before, x);
            lemma_strings_view_take(b@, i as int);
            assert(strings_view(res@) =~= strings_view(a@) + strings_view(b@).take(i + 1));
        }
        i = i + 1;
    }
    assert(strings_view(b@).take(b.len() as int) =~= strings_view(b@));
    res
}

fn push_all(acc: &mut String, comps: &Vec<String>)
    ensures
        final(acc)@ == join(old(acc)@, strings_view(comps@)),
{
    let mut i: usize = 0;
    assert(strings_view(comps@).take(0) =~= Seq::<Seq<char>>::empty());
    while i < comps.len()
        invariant
            i <= comps.len(),
            acc@ == join(old(acc)@, strings_view(comps@).take(i as int)),
        decreases comps.len() - i,
    {
        let ghost before = acc@;
        let c = comps[i].as_str();
        let cv = chars_of(c);
        let av = chars_of(acc.as_str());
        if av.len() == 0 {
            push_str(acc, c);
            assert(acc@ =~= cv@);
        } else {
            if av[av.len() - 1] == '/' {
                push_str(acc, c);
            } else {
                push_char(acc, '/');
                push_str(acc, c);
            }
        }
        let ghost t = strings_view(comps@).take(i + 1);
        assert(t.drop_last() =~= strings_view(comps@).take(i as int));
        assert(t.last() == comps@[i as int]@);
        i = i + 1;
    }
    assert(strings_view(comps@).take(comps.len() as int) =~= strings_view(comps@));
}

fn push_slashed(acc: &mut String, comps: &Vec<String>)
    ensures
        final(acc)@ == old(acc)@ + slashed(strings_view(comps@)),
{
    let mut i: usize = 0;
    assert(strings_view(comps@).take(0) =~= Seq::<Seq<char>>::empty());
    while i < comps.len()
        invariant
            i <= comps.len(),
            acc@ == old(acc)@ + slashed(strings_view(comps@).take(i as int)),
        decreases comps.len() - i,
    {
        push_char(acc, '/');
        push_str(acc, comps[i].as_str());
        let ghost t = strings_view(comps@).take(i + 1);
        assert(t.drop_last() =~= strings_view(comps@).take(i as int));
        assert(acc@ =~= old(acc)@ + slashed(t));
        i = i + 1;
    }
    assert(strings_view(comps@).take(comps.len() as int) =~= strings_view(comps@));
}

/// Whether a path text ends in a file name (so `VirtPath::virtualize`
/// accepts it).
pub fn check_file_name(path: &str) -> (res: bool)
    ensures
        res == has_file_name(path@),
{
    let s = chars_of(path);
    let tl = trimmed(&s, s.len());
    proof {
        assert(s@.take(s@.len() as int) =~= s@);
        lemma_last_slash_take(s@, tl as int, tl as int);
    }
    let start = after_last_slash(&s, tl);
    let n = tl - start;
    let ghost t = s@.take(tl as int);
    let ghost name = split_file(path@).1;
    assert(name =~= s@.subrange(start as int, tl as int));
    if n == 0 {
        false
    } else if n == 1 && s[start] == '.' {
        assert(name =~= seq!['.']);
        false
    } else if n == 2 && s[start] == '.' && s[start + 1] == '.' {
        assert(name =~= seq!['.', '.']);
        false
    } else {
        proof {
            if name == seq!['.'] {
                assert(name[0] == s@[start as int]);
            }
            if name == seq!['.', '.'] {
                assert(name[0] == s@[start as int]);
                assert(name[1] == s@[start + 1]);
            }
        }
        true
    }
}

/// Stepping down into a component and then along `..` gives back the path
/// one started from.
pub proof fn law_step_down_then_up(m: PathModel, x: Seq<char>)
    ensures
        (PathModel { parts: m.parts.push(x), ..m }).parts.drop_last() == m.parts,
        (PathModel { parts: (PathModel { parts: m.parts.push(x), ..m }).parts.drop_last(), ..m }) == m,
{
    assert(m.parts.push(x).drop_last() =~= m.parts);
}

/// Locking a path keeps the location it names, and leaves no free
/// component for `..` to remove: `..` cannot go above a locked path.
pub proof fn law_lock_keeps_location(m: PathModel)
    ensures
        path_text(m.locked_here()) == path_text(m),
        m.locked_here().parts.len() == 0,
        m.locked_here().name == m.name,
{
    assert(m.locked_here().parts =~= Seq::<Seq<char>>::empty());
    lemma_join_concat(m.root, m.locked, m.parts);
}

proof fn lemma_join_concat(base: Seq<char>, a: Seq<Seq<char>>, b: Seq<Seq<char>>)
    ensures
        join(base, a + b) == join(join(base, a), b),
    decreases b.len(),
{
    if b.len() == 0 {
        assert(a + b =~= a);
    } else {
        lemma_join_concat(base, a, b.drop_last());
        assert((a + b).drop_last() =~= a + b.drop_last());
        assert((a + b).last() == b.last());
    }
}

/// Translating a path from `from` to `to` and back gives the path again,
/// when the path and `from` have the same locked components.
pub proof fn law_translate_round_trip(p: PathModel, from: PathModel, to: PathModel)
    requires
        p.name == from.name,
        p.root == from.root,
        p.locked == from.locked,
        strip_prefix(p.locked + p.parts, from.locked + from.parts) is Some,
    ensures
        ({
            let rest = strip_prefix(p.locked + p.parts, from.locked + from.parts)->0;
            let q = PathModel { name: to.name, root: to.root, locked: to.locked, parts: to.parts + rest };
            &&& strip_prefix(q.locked + q.parts, to.locked + to.parts) == Some(rest)
            &&& (PathModel {
                name: from.name,
                root: from.root,
                locked: from.locked,
                parts: from.parts + strip_prefix(q.locked + q.parts, to.locked + to.parts)->0,
            }) == p
        }),
{
    let rest = strip_prefix(p.locked + p.parts, from.locked + from.parts)->0;
    let q = PathModel { name: to.name, root: to.root, locked: to.locked, parts: to.parts + rest };
    let pre = to.locked + to.parts;
    assert(q.locked + q.parts =~= pre + rest);
    assert((pre + rest).take(pre.len() as int) =~= pre);
    assert((pre + rest).skip(pre.len() as int) =~= rest);
    let fp = from.locked + from.parts;
    assert((p.locked + p.parts).skip(fp.len() as int) == rest);
    assert((p.locked + p.parts).take(fp.len() as int) == fp);
    assert(from.parts + rest =~= p.parts) by {
        assert forall|i: int| 0 <= i < p.parts.len() implies (from.parts + rest)[i] == p.parts[i] by {
            let all = p.locked + p.parts;
            assert(all[p.locked.len() + i] == p.parts[i]);
            if i < from.parts.len() {
                assert(all.take(fp.len() as int)[p.locked.len() + i] == fp[p.locked.len() + i]);
            } else {
                assert(all.skip(fp.len() as int)[i - from.parts.len()] == all[p.locked.len() + i]);
            }
        }
        assert((from.parts + rest).len() == p.parts.len());
    }
}

} // verus!
