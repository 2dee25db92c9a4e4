//! Lexical path model.
//!
//! A path is modeled as an absoluteness flag together with a sequence of
//! components (the non-empty runs of characters between `/` separators).
//! All operations here are purely syntactic: nothing consults a
//! filesystem.

use vstd::prelude::*;

verus! {

/// A well-formed component is non-empty and contains no separator.
pub open spec fn wf_comp(c: Seq<char>) -> bool {
    &&& c.len() > 0
    &&& forall|k: int| 0 <= k < c.len() ==> c[k] != '/'
}

/// All components of a path are well formed.
pub open spec fn wf_comps(cs: Seq<Seq<char>>) -> bool {
    forall|i: int| 0 <= i < cs.len() ==> wf_comp(#[trigger] cs[i])
}

/// A path string is absolute when it starts with the separator.
pub open spec fn spec_is_abs(s: Seq<char>) -> bool {
    s.len() > 0 && s[0] == '/'
}

/// The component sequence of a path string: maximal non-empty runs of
/// non-separator characters.  Duplicate separators collapse because empty
/// runs are dropped.
pub open spec fn split_comps(s: Seq<char>) -> Seq<Seq<char>>
    decreases s.len(),
{
    if s.len() == 0 {
        Seq::empty()
    } else {
        let rest = split_comps(s.drop_last());
        let c = s.last();
        if c == '/' {
            rest
        } else if rest.len() == 0 || s.drop_last().last() == '/' {
            rest.push(seq![c])
        } else {
            rest.update(rest.len() - 1, rest.last().push(c))
        }
    }
}

/// The component that leaves a path unchanged.
pub open spec fn dot_comp() -> Seq<char> {
    seq!['.']
}

/// The component that names the parent.
pub open spec fn dotdot_comp() -> Seq<char> {
    seq!['.', '.']
}

/// Lexical normalization of a component sequence: `.` components are
/// dropped; a `..` pops the preceding component when one exists and is not
/// itself `..`; at the root of an absolute path a `..` is dropped; leading
/// `..` components of a relative path are kept.
pub open spec fn norm_comps(abs: bool, cs: Seq<Seq<char>>) -> Seq<Seq<char>>
    decreases cs.len(),
{
    if cs.len() == 0 {
        Seq::empty()
    } else {
        let rest = norm_comps(abs, cs.drop_last());
        let c = cs.last();
        if c == dot_comp() {
            rest
        } else if c == dotdot_comp() {
            if rest.len() > 0 && rest.last() != dotdot_comp() {
                rest.drop_last()
            } else if abs {
                rest
            } else {
                rest.push(c)
            }
        } else {
            rest.push(c)
        }
    }
}

/// Components pasted together with single separators, without a leading
/// separator.
pub open spec fn join_comps(cs: Seq<Seq<char>>) -> Seq<char>
    decreases cs.len(),
{
    if cs.len() == 0 {
        Seq::empty()
    } else if cs.len() == 1 {
        cs[0]
    } else {
        join_comps(cs.drop_last()) + seq!['/'] + cs.last()
    }
}

/// The string form of a path: a leading separator when absolute, then the
/// components separated by single separators.
pub open spec fn render_model(abs: bool, cs: Seq<Seq<char>>) -> Seq<char> {
    if abs {
        seq!['/'] + join_comps(cs)
    } else {
        join_comps(cs)
    }
}

/// The final component of a path string: the longest suffix free of
/// separators (empty when the string ends in a separator).
pub open spec fn basename(s: Seq<char>) -> Seq<char>
    decreases s.len(),
{
    if s.len() == 0 || s.last() == '/' {
        Seq::empty()
    } else {
        basename(s.drop_last()).push(s.last())
    }
}

/// The parent of a path: one component fewer; a root and an empty relative
/// path have none.
pub open spec fn parent_model(abs: bool, cs: Seq<Seq<char>>) -> Option<(bool, Seq<Seq<char>>)> {
    if cs.len() == 0 {
        None
    } else {
        Some((abs, cs.drop_last()))
    }
}

/// The full path probed in a directory: the directory's components with
/// the target filename appended, rendered as a string.
pub open spec fn candidate_model(abs: bool, cs: Seq<Seq<char>>, fname: Seq<char>) -> Seq<char> {
    render_model(abs, cs.push(fname))
}

/// The model of joining: an absolute right-hand side stands alone, a
/// relative one is appended to the base.
pub open spec fn join_model(
    base_abs: bool,
    base_cs: Seq<Seq<char>>,
    in_abs: bool,
    in_cs: Seq<Seq<char>>,
) -> (bool, Seq<Seq<char>>) {
    if in_abs {
        (true, in_cs)
    } else {
        (base_abs, base_cs + in_cs)
    }
}

/// The starting point of a walk, before the file check: the input joined
/// onto the base and normalized.
pub open spec fn resolve_model(
    base_abs: bool,
    base_cs: Seq<Seq<char>>,
    in_abs: bool,
    in_cs: Seq<Seq<char>>,
) -> (bool, Seq<Seq<char>>) {
    let (abs, cs) = join_model(base_abs, base_cs, in_abs, in_cs);
    (abs, norm_comps(abs, cs))
}

/// The partial component between `j` and `i`, or nothing when the scan sits
/// on a separator boundary.
spec fn cur_comp(s: Seq<char>, j: int, i: int) -> Seq<Seq<char>> {
    if j < i {
        seq![s.subrange(j, i)]
    } else {
        Seq::empty()
    }
}

/// A path held as its parsed form: absoluteness flag and components.
pub struct LexPath {
    pub absolute: bool,
    pub comps: Vec<String>,
}

impl LexPath {
    /// The component sequence, at the specification level.
    pub open spec fn comps_seq(&self) -> Seq<Seq<char>> {
        self.comps.deep_view()
    }

    /// Every component is non-empty and free of separators.
    pub open spec fn wf(&self) -> bool {
        wf_comps(self.comps_seq())
    }

    /// Parse a path string into its absoluteness flag and components.
    pub fn parse(s: &str) -> (p: LexPath)
        ensures
            p.absolute == spec_is_abs(s@),
            p.comps_seq() == split_comps(s@),
            p.wf(),
    {
        let len = s.unicode_len();
        let absolute = len > 0 && s.get_char(0) == '/';
        let mut comps: Vec<String> = Vec::new();
        let mut j: usize = 0;
        let mut i: usize = 0;
        while i < len
            invariant
                len == s@.len(),
                i <= len,
                j <= i,
                absolute == spec_is_abs(s@),
                forall|k: int| j <= k < i ==> s@[k] != '/',
                j == i ==> (i == 0 || s@[i - 1] == '/'),
                comps.deep_view() + cur_comp(s@, j as int, i as int) == split_comps(
                    s@.take(i as int),
                ),
                wf_comps(comps.deep_view()),
            decreases len - i,
        {
            let c = s.get_char(i);
            proof {
                assert(s@.take(i + 1).drop_last() =~= s@.take(i as int));
                assert(s@.take(i + 1).last() == s@[i as int]);
            }
            if c == '/' {
                if j < i {
                    let comp = String::from_str(s.substring_char(j, i));
                    comps.push(comp);
                    proof {
                        assert(comps.deep_view() =~= comps.deep_view().drop_last().push(
                            s@.subrange(j as int, i as int),
                        ));
                        assert(comps.deep_view() + cur_comp(s@, i + 1, i + 1) =~= split_comps(
                            s@.take(i + 1),
                        ));
                    }
                } else {
                    proof {
                        assert(comps.deep_view() + cur_comp(s@, i + 1, i + 1) =~= split_comps(
                            s@.take(i + 1),
                        ));
                    }
                }
                j = i + 1;
            } else {
                proof {
                    if j == i {
                        assert(s@.subrange(j as int, i + 1) =~= seq![s@[i as int]]);
                        assert(split_comps(s@.take(i + 1)) =~= comps.deep_view() + cur_comp(
                            s@,
                            j as int,
                            i + 1,
                        ));
                    } else {
                        let pre = split_comps(s@.take(i as int));
                        let post = split_comps(s@.take(i + 1));
                        assert(pre.len() > 0);
                        assert(s@.take(i as int).last() == s@[i - 1]);
                        assert(s@[i - 1] != '/');
                        assert(post == pre.update(pre.len() - 1, pre.last().push(s@[i as int])));
                        assert(pre.last() == s@.subrange(j as int, i as int));
                        assert(pre.last().push(s@[i as int]) =~= s@.subrange(j as int, i + 1));
                        assert(post =~= comps.deep_view() + cur_comp(s@, j as int, i + 1));
                    }
                }
            }
            i = i + 1;
        }
        if j < len {
            let comp = String::from_str(s.substring_char(j, len));
            comps.push(comp);
            proof {
                assert(comps.deep_view() =~= comps.deep_view().drop_last().push(
                    s@.subrange(j as int, len as int),
                ));
            }
        }
        proof {
            assert(s@.take(len as int) =~= s@);
            assert(comps.deep_view() =~= split_comps(s@));
        }
        LexPath { absolute, comps }
    }

    /// Render the path back into its string form.
    pub fn render(&self) -> (s: String)
        ensures
            s@ == render_model(self.absolute, self.comps_seq()),
    {
        let mut s = String::new();
        if self.absolute {
            s.append("/");
        }
        proof {
            reveal_strlit("/");
            assert(s@ =~= render_model(self.absolute, self.comps_seq().take(0)));
        }
        let n = self.comps.len();
        for i in 0..n
            invariant
                n == self.comps.len(),
                s@ == render_model(self.absolute, self.comps_seq().take(i as int)),
        {
            if i > 0 {
                s.append("/");
            }
            s.append(self.comps[i].as_str());
            proof {
                reveal_strlit("/");
                lemma_render_take_step(self.absolute, self.comps_seq(), i as int);
            }
        }
        proof {
            assert(self.comps_seq().take(n as int) =~= self.comps_seq());
        }
        s
    }

    /// The path extended by one more component.
    pub fn child(&self, name: &str) -> (r: LexPath)
        ensures
            r.absolute == self.absolute,
            r.comps_seq() == self.comps_seq().push(name@),
    {
        let mut comps = duplicate_comps(&self.comps);
        comps.push(String::from_str(name));
        proof {
            assert(comps.deep_view() =~= self.comps_seq().push(name@));
        }
        LexPath { absolute: self.absolute, comps }
    }

    /// An identical copy of the path.
    pub fn duplicate(&self) -> (r: LexPath)
        ensures
            r.absolute == self.absolute,
            r.comps_seq() == self.comps_seq(),
    {
        LexPath { absolute: self.absolute, comps: duplicate_comps(&self.comps) }
    }

    /// Normalize the path by dropping `.` components and resolving `..`
    /// components against what precedes them.
    pub fn normalize(&self) -> (r: LexPath)
        ensures
            r.absolute == self.absolute,
            r.comps_seq() == norm_comps(self.absolute, self.comps_seq()),
    {
        let dot = String::from_str(".");
        let dotdot = String::from_str("..");
        proof {
            reveal_strlit(".");
            reveal_strlit("..");
            assert(dot@ =~= dot_comp());
            assert(dotdot@ =~= dotdot_comp());
        }
        let mut out: Vec<String> = Vec::new();
        let n = self.comps.len();
        for i in 0..n
            invariant
                n == self.comps.len(),
                dot@ == dot_comp(),
                dotdot@ == dotdot_comp(),
                out.deep_view() == norm_comps(self.absolute, self.comps_seq().take(i as int)),
        {
            proof {
                assert(self.comps_seq().take(i + 1).drop_last() =~= self.comps_seq().take(i as int));
                assert(self.comps_seq().take(i + 1).last() == self.comps_seq()[i as int]);
            }
            let c = &self.comps[i];
            if *c == dot {
                // dropped
            } else if *c == dotdot {
                if out.len() > 0 && !(out[out.len() - 1] == dotdot) {
                    out.pop();
                    proof {
                        assert(out.deep_view() =~= norm_comps(
                            self.absolute,
                            self.comps_seq().take(i + 1),
                        ));
                    }
                } else if self.absolute {
                    // a parent of the root is the root
                } else {
                    out.push(c.clone());
                    proof {
                        assert(out.deep_view() =~= norm_comps(
                            self.absolute,
                            self.comps_seq().take(i + 1),
                        ));
                    }
                }
            } else {
                out.push(c.clone());
                proof {
                    assert(out.deep_view() =~= norm_comps(
                        self.absolute,
                        self.comps_seq().take(i + 1),
                    ));
                }
            }
        }
        proof {
            assert(self.comps_seq().take(n as int) =~= self.comps_seq());
        }
        LexPath { absolute: self.absolute, comps: out }
    }

    /// The parent path: one component fewer, or nothing at a root (an
    /// absolute path without components) or an empty relative path.
    pub fn parent(&self) -> (r: Option<LexPath>)
        ensures
            r matches Some(p) ==> self.comps_seq().len() > 0 && p.absolute == self.absolute
                && p.comps_seq() == self.comps_seq().drop_last(),
            r is None <==> self.comps_seq().len() == 0,
    {
        if self.comps.len() == 0 {
            None
        } else {
            let mut comps = duplicate_comps(&self.comps);
            comps.pop();
            proof {
                assert(comps.deep_view() =~= self.comps_seq().drop_last());
            }
            Some(LexPath { absolute: self.absolute, comps })
        }
    }

    /// Join `input` onto `self`: an absolute `input` stands alone, a
    /// relative one is appended to `self`.
    pub fn join(&self, input: &LexPath) -> (r: LexPath)
        ensures
            (r.absolute, r.comps_seq()) == join_model(
                self.absolute,
                self.comps_seq(),
                input.absolute,
                input.comps_seq(),
            ),
    {
        if input.absolute {
            input.duplicate()
        } else {
            let mut comps = duplicate_comps(&self.comps);
            let mut tail = duplicate_comps(&input.comps);
            comps.append(&mut tail);
            proof {
                assert(comps.deep_view() =~= self.comps_seq() + input.comps_seq());
            }
            LexPath { absolute: self.absolute, comps }
        }
    }
}

/// Normalize a path string: separators are collapsed, `.` components are
/// dropped and `..` components are resolved lexically.  The absoluteness of
/// the input is kept.
pub fn normalize_path(s: &str) -> (r: String)
    ensures
        r@ == render_model(
            spec_is_abs(s@),
            norm_comps(spec_is_abs(s@), split_comps(s@)),
        ),
{
    LexPath::parse(s).normalize().render()
}

/// An element-wise copy of a component vector, with the views unchanged.
fn duplicate_comps(v: &Vec<String>) -> (r: Vec<String>)
    ensures
        r@ == v@,
{
    let r = v.clone();
    proof {
        assert(forall|i: int| 0 <= i < v@.len() ==> r@[i] == v@[i]);
        assert(r@ =~= v@);
    }
    r
}

/// Every component produced by splitting is well formed.
pub proof fn lemma_split_wf(s: Seq<char>)
    ensures
        wf_comps(split_comps(s)),
    decreases s.len(),
{
    if s.len() > 0 {
        lemma_split_wf(s.drop_last());
        let rest = split_comps(s.drop_last());
        let c = s.last();
        if c == '/' {
        } else if rest.len() == 0 || s.drop_last().last() == '/' {
            assert forall|i: int| 0 <= i < split_comps(s).len() implies wf_comp(
                #[trigger] split_comps(s)[i],
            ) by {
                if i == rest.len() {
                    assert(split_comps(s)[i] =~= seq![c]);
                }
            }
        } else {
            assert forall|i: int| 0 <= i < split_comps(s).len() implies wf_comp(
                #[trigger] split_comps(s)[i],
            ) by {
                if i == rest.len() - 1 {
                    assert(split_comps(s)[i] == rest.last().push(c));
                }
            }
        }
    }
}

/// Splitting a string that ends at a component boundary and continues with
/// one well-formed component appends exactly that component.
proof fn lemma_split_extend(t: Seq<char>, c: Seq<char>)
    requires
        wf_comp(c),
        t.len() == 0 || t.last() == '/',
    ensures
        split_comps(t + c) == split_comps(t).push(c),
    decreases c.len(),
{
    if c.len() == 1 {
        assert((t + c).drop_last() =~= t);
        assert((t + c).last() == c[0]);
        assert(seq![c[0]] =~= c);
        assert(split_comps(t + c) =~= split_comps(t).push(c));
    } else {
        let c2 = c.drop_last();
        assert(wf_comp(c2));
        lemma_split_extend(t, c2);
        assert((t + c).drop_last() =~= t + c2);
        assert((t + c).last() == c.last());
        let rest = split_comps(t + c2);
        assert(rest == split_comps(t).push(c2));
        assert(rest.len() > 0);
        assert((t + c2).last() == c2.last());
        assert(c2.last() != '/');
        assert(rest.last() == c2);
        assert(rest.update(rest.len() - 1, rest.last().push(c.last())) =~= split_comps(t).push(
            c2.push(c.last()),
        ));
        assert(c2.push(c.last()) =~= c);
    }
}

/// A trailing separator does not change the components.
proof fn lemma_split_trailing_sep(t: Seq<char>)
    ensures
        split_comps(t + seq!['/']) == split_comps(t),
{
    assert((t + seq!['/']).drop_last() =~= t);
    assert((t + seq!['/']).last() == '/');
}

/// A non-empty well-formed component sequence joins into a non-empty
/// string that starts with the first component's first character.
proof fn lemma_join_first(cs: Seq<Seq<char>>)
    requires
        cs.len() > 0,
        wf_comps(cs),
    ensures
        join_comps(cs).len() > 0,
        join_comps(cs)[0] == cs[0][0],
    decreases cs.len(),
{
    if cs.len() > 1 {
        lemma_join_first(cs.drop_last());
        assert(cs.drop_last()[0] == cs[0]);
    }
}

/// Rendering a well-formed path and parsing it back returns the same
/// path: the string form loses nothing.
pub proof fn lemma_render_parse(abs: bool, cs: Seq<Seq<char>>)
    requires
        wf_comps(cs),
    ensures
        spec_is_abs(render_model(abs, cs)) == abs,
        split_comps(render_model(abs, cs)) == cs,
    decreases cs.len(),
{
    let r = render_model(abs, cs);
    let nil = Seq::<char>::empty();
    assert(split_comps(nil) =~= Seq::<Seq<char>>::empty());
    if abs {
        assert(r[0] == '/');
        assert(spec_is_abs(r));
    } else if cs.len() == 0 {
        assert(r =~= nil);
        assert(!spec_is_abs(r));
    } else {
        lemma_join_first(cs);
        assert(r[0] == cs[0][0]);
        assert(!spec_is_abs(r));
    }
    if cs.len() == 0 {
        if abs {
            assert(r =~= seq!['/']);
            assert(r.drop_last() =~= nil);
            assert(r.last() == '/');
            assert(split_comps(r) =~= cs);
        } else {
            assert(r =~= nil);
            assert(split_comps(r) =~= cs);
        }
    } else if cs.len() == 1 {
        let t: Seq<char> = if abs {
            seq!['/']
        } else {
            nil
        };
        lemma_split_extend(t, cs[0]);
        assert(r =~= t + cs[0]);
        if abs {
            assert(t.drop_last() =~= nil);
            assert(t.last() == '/');
        }
        assert(split_comps(t) =~= Seq::<Seq<char>>::empty());
        assert(split_comps(r) =~= cs);
    } else {
        let cs2 = cs.drop_last();
        lemma_render_parse(abs, cs2);
        let r2 = render_model(abs, cs2);
        assert(cs2.len() >= 1);
        assert(join_comps(cs) == join_comps(cs2) + seq!['/'] + cs.last());
        assert(r =~= (r2 + seq!['/']) + cs.last());
        lemma_split_trailing_sep(r2);
        assert((r2 + seq!['/']).last() == '/');
        lemma_split_extend(r2 + seq!['/'], cs.last());
        assert(split_comps(r) =~= cs2.push(cs.last()));
        assert(cs2.push(cs.last()) =~= cs);
    }
}

/// Appending separator-free characters after a component boundary makes
/// them the basename.
proof fn lemma_basename_append(t: Seq<char>, f: Seq<char>)
    requires
        t.len() == 0 || t.last() == '/',
        forall|k: int| 0 <= k < f.len() ==> f[k] != '/',
    ensures
        basename(t + f) == f,
    decreases f.len(),
{
    if f.len() == 0 {
        assert(t + f =~= t);
        assert(basename(t) =~= f);
    } else {
        let f2 = f.drop_last();
        lemma_basename_append(t, f2);
        assert((t + f).drop_last() =~= t + f2);
        assert((t + f).last() == f.last());
        assert(basename(t + f) =~= f);
    }
}

/// The basename of a candidate path is exactly the target filename.
pub proof fn lemma_basename_candidate(abs: bool, ds: Seq<Seq<char>>, fname: Seq<char>)
    requires
        wf_comp(fname),
    ensures
        basename(candidate_model(abs, ds, fname)) == fname,
{
    let cand = candidate_model(abs, ds, fname);
    if ds.len() == 0 {
        let t: Seq<char> = if abs {
            seq!['/']
        } else {
            Seq::empty()
        };
        assert(cand =~= t + fname);
        lemma_basename_append(t, fname);
    } else {
        let full = ds.push(fname);
        assert(full.drop_last() =~= ds);
        assert(full.last() == fname);
        assert(join_comps(full) == join_comps(ds) + seq!['/'] + fname);
        let t = render_model(abs, ds) + seq!['/'];
        assert(cand =~= t + fname);
        assert(t.last() == '/');
        lemma_basename_append(t, fname);
    }
}

/// A component sequence in normal form: no `.` anywhere, `..` only as a
/// leading run, and never a `..` in an absolute path.
pub open spec fn is_normal(abs: bool, cs: Seq<Seq<char>>) -> bool {
    &&& forall|i: int| 0 <= i < cs.len() ==> #[trigger] cs[i] != dot_comp()
    &&& forall|i: int, j: int|
        0 <= i < j < cs.len() && #[trigger] cs[j] == dotdot_comp() ==> #[trigger] cs[i]
            == dotdot_comp()
    &&& abs ==> forall|i: int| 0 <= i < cs.len() ==> #[trigger] cs[i] != dotdot_comp()
}

/// Normalization keeps components well formed: what it emits is either a
/// component of the input or `..`.
pub proof fn lemma_norm_wf(abs: bool, cs: Seq<Seq<char>>)
    requires
        wf_comps(cs),
    ensures
        wf_comps(norm_comps(abs, cs)),
    decreases cs.len(),
{
    if cs.len() > 0 {
        lemma_norm_wf(abs, cs.drop_last());
        let rest = norm_comps(abs, cs.drop_last());
        let out = norm_comps(abs, cs);
        assert(wf_comp(cs.last()));
        assert forall|i: int| 0 <= i < out.len() implies wf_comp(#[trigger] out[i]) by {
            if i < rest.len() {
                assert(rest[i] == norm_comps(abs, cs.drop_last())[i]);
            }
        }
    }
}

/// Normalization produces a normal form.
pub proof fn lemma_norm_normal(abs: bool, cs: Seq<Seq<char>>)
    ensures
        is_normal(abs, norm_comps(abs, cs)),
    decreases cs.len(),
{
    if cs.len() > 0 {
        lemma_norm_normal(abs, cs.drop_last());
        let rest = norm_comps(abs, cs.drop_last());
        let out = norm_comps(abs, cs);
        let c = cs.last();
        if c == dot_comp() {
        } else if c == dotdot_comp() {
            if rest.len() > 0 && rest.last() != dotdot_comp() {
                assert(out == rest.drop_last());
            } else if abs {
            } else {
                // every earlier component of `rest` is itself `..`
                assert forall|i: int| 0 <= i < rest.len() implies #[trigger] rest[i]
                    == dotdot_comp() by {
                    assert(rest[rest.len() - 1] == dotdot_comp());
                }
            }
        } else {
            assert(out == rest.push(c));
        }
    }
}

/// Normalization leaves a normal form unchanged.
pub proof fn lemma_norm_of_normal(abs: bool, cs: Seq<Seq<char>>)
    requires
        is_normal(abs, cs),
    ensures
        norm_comps(abs, cs) == cs,
    decreases cs.len(),
{
    if cs.len() > 0 {
        let cs2 = cs.drop_last();
        assert(is_normal(abs, cs2)) by {
            assert(forall|i: int| 0 <= i < cs2.len() ==> #[trigger] cs2[i] == cs[i]);
        }
        lemma_norm_of_normal(abs, cs2);
        let c = cs.last();
        assert(c == cs[cs.len() - 1]);
        assert(c != dot_comp());
        if c == dotdot_comp() {
            assert(!abs);
            // the run of leading `..` reaches everything before the last
            assert forall|i: int| 0 <= i < cs2.len() implies #[trigger] cs2[i] == dotdot_comp() by {
                assert(cs[i] == dotdot_comp());
            }
            assert(norm_comps(abs, cs) =~= cs);
        } else {
            assert(norm_comps(abs, cs) =~= cs);
        }
    } else {
        assert(norm_comps(abs, cs) =~= cs);
    }
}

/// Normalizing twice is the same as normalizing once.
pub proof fn lemma_norm_idempotent(abs: bool, cs: Seq<Seq<char>>)
    ensures
        norm_comps(abs, norm_comps(abs, cs)) == norm_comps(abs, cs),
{
    lemma_norm_normal(abs, cs);
    lemma_norm_of_normal(abs, norm_comps(abs, cs));
}

/// Resolving is idempotent: rendering an already resolved absolute path
/// and resolving it again, against any base at all, changes nothing.
pub proof fn lemma_resolve_idempotent(
    base: Seq<char>,
    input: Seq<char>,
    babs2: bool,
    bcs2: Seq<Seq<char>>,
)
    requires
        spec_is_abs(base) || spec_is_abs(input),
    ensures
        ({
            let (a, cs) = resolve_model(
                spec_is_abs(base),
                split_comps(base),
                spec_is_abs(input),
                split_comps(input),
            );
            let rendered = render_model(a, cs);
            resolve_model(babs2, bcs2, spec_is_abs(rendered), split_comps(rendered)) == (a, cs)
        }),
{
    let (a, joined) = join_model(
        spec_is_abs(base),
        split_comps(base),
        spec_is_abs(input),
        split_comps(input),
    );
    assert(a);
    lemma_split_wf(base);
    lemma_split_wf(input);
    assert(wf_comps(joined)) by {
        if !spec_is_abs(input) {
            assert(forall|i: int|
                0 <= i < joined.len() ==> #[trigger] joined[i] == if i < split_comps(
                    base,
                ).len() {
                    split_comps(base)[i]
                } else {
                    split_comps(input)[i - split_comps(base).len()]
                });
        }
    }
    let cs = norm_comps(a, joined);
    lemma_norm_wf(a, joined);
    lemma_render_parse(a, cs);
    lemma_norm_normal(a, joined);
    lemma_norm_of_normal(a, cs);
}

/// Rendering one more component appends a separator (when anything came
/// before it) and the component.
proof fn lemma_render_take_step(abs: bool, cs: Seq<Seq<char>>, i: int)
    requires
        0 <= i < cs.len(),
    ensures
        render_model(abs, cs.take(i + 1)) == if i > 0 {
            render_model(abs, cs.take(i)) + seq!['/'] + cs[i]
        } else {
            render_model(abs, cs.take(i)) + cs[i]
        },
{
    assert(cs.take(i + 1).drop_last() =~= cs.take(i));
    assert(cs.take(i + 1).last() == cs[i]);
    if i == 0 {
        assert(join_comps(cs.take(1)) == cs[0]);
        assert(render_model(abs, cs.take(1)) =~= render_model(abs, cs.take(0)) + cs[0]);
    } else {
        assert(render_model(abs, cs.take(i + 1)) =~= render_model(abs, cs.take(i)) + seq!['/']
            + cs[i]);
    }
}

} // verus!
