//! The upward walk, as a state machine.
//!
//! The walk needs two things from its surroundings: the working directory
//! (once, and only when no base path was given) and the answer to one
//! filesystem probe per step ("does this path name a regular file?").
//! Both arrive as plain values: the caller reads [`FindIter::needs_cwd`]
//! and [`FindIter::pending_probe`], performs the lookup itself, and hands
//! the outcome to [`FindIter::supply_cwd`] or [`FindIter::advance`].  Every
//! transition is specified exactly, so the sequence of yielded paths is a
//! function of the inputs and the probe outcomes alone.

use vstd::prelude::*;

use crate::paths::LexPath;
use crate::paths::basename;
use crate::paths::candidate_model;
use crate::paths::dot_comp;
use crate::paths::lemma_basename_candidate;
use crate::paths::parent_model;
use crate::paths::render_model;
use crate::paths::resolve_model;
use crate::paths::spec_is_abs;
use crate::paths::split_comps;
use crate::paths::wf_comp;

verus! {

/// Where the walk stands.
pub enum Phase {
    /// The input was relative and no base was given: the working directory
    /// is needed before anything can be probed.
    NeedCwd { input: LexPath },
    /// The resolved starting path awaits its file check: if it names a
    /// regular file, the walk starts from its parent.
    StartCheck { start: LexPath },
    /// The walk proper; `current` is the directory whose candidate is
    /// probed next, or nothing once the walk has passed the root.
    Walking { current: Option<LexPath> },
}

/// What one probe step produced.
pub enum Step {
    /// The candidate was a regular file: its full path is yielded.
    Yield(String),
    /// No hit here; the walk moved one directory up.
    Continue,
    /// The walk is over: no parent remains.
    Done,
}

/// Iterator state for the upward walk: the current phase and the fixed
/// target filename.
pub struct FindIter {
    pub phase: Phase,
    pub file_name: String,
}

/// The file check on the resolved starting path: a regular file collapses
/// to its parent, a path with no parent harmlessly stands for itself.
pub open spec fn collapse_model(abs: bool, cs: Seq<Seq<char>>, is_file: bool) -> (
    bool,
    Seq<Seq<char>>,
) {
    if is_file {
        match parent_model(abs, cs) {
            Some(p) => p,
            None => (abs, cs),
        }
    } else {
        (abs, cs)
    }
}

/// Build an upward-walk iterator.
///
/// * `input` is the path the search starts from (a directory, a file, or a
///   nonexistent path); a relative `input` is anchored at `base`.
/// * `base` anchors a relative `input`; when absent, the working directory
///   is consulted instead, through [`FindIter::supply_cwd`].
/// * `file_name` is the target filename, by default `Cargo.toml`.
pub fn find(input: &str, base: Option<&str>, file_name: Option<&str>) -> (it: FindIter)
    ensures
        it.file_name@ == match file_name {
            Some(f) => f@,
            None => "Cargo.toml"@,
        },
        match base {
            Some(b) => {
                &&& it.phase matches Phase::StartCheck { start }
                &&& (start.absolute, start.comps_seq()) == resolve_model(
                    spec_is_abs(b@),
                    split_comps(b@),
                    spec_is_abs(input@),
                    split_comps(input@),
                )
            },
            None => {
                &&& it.phase matches Phase::NeedCwd { input: ip }
                &&& ip.absolute == spec_is_abs(input@)
                &&& ip.comps_seq() == split_comps(input@)
            },
        },
{
    let fname = match file_name {
        Some(f) => String::from_str(f),
        None => String::from_str("Cargo.toml"),
    };
    let ip = LexPath::parse(input);
    let phase = match base {
        Some(b) => Phase::StartCheck { start: LexPath::parse(b).join(&ip).normalize() },
        None => Phase::NeedCwd { input: ip },
    };
    FindIter { phase, file_name: fname }
}

/// The same as [`find`] with no base: the working directory anchors a
/// relative `input`.
pub fn find_from_current_dir(input: &str, file_name: Option<&str>) -> (it: FindIter)
    ensures
        it.file_name@ == match file_name {
            Some(f) => f@,
            None => "Cargo.toml"@,
        },
        it.phase matches Phase::NeedCwd { input: ip } && ip.absolute == spec_is_abs(input@)
            && ip.comps_seq() == split_comps(input@),
{
    find(input, None, file_name)
}

impl FindIter {
    /// The directory the walk currently stands in, as its model; only
    /// meaningful in the walking phase.
    pub open spec fn current_model(&self) -> Option<(bool, Seq<Seq<char>>)> {
        match self.phase {
            Phase::Walking { current: Some(d) } => Some((d.absolute, d.comps_seq())),
            _ => None,
        }
    }

    /// True while the working directory has not been supplied yet.
    pub fn needs_cwd(&self) -> (b: bool)
        ensures
            b == (self.phase is NeedCwd),
    {
        match self.phase {
            Phase::NeedCwd { .. } => true,
            _ => false,
        }
    }

    /// Supply the working directory read, or its failure (`None`), which
    /// falls back to the single-component relative path `.`.  The starting
    /// path becomes the input joined onto the working directory and
    /// normalized.
    pub fn supply_cwd(&mut self, cwd: Option<&str>)
        requires
            old(self).phase is NeedCwd,
        ensures
            final(self).file_name == old(self).file_name,
            ({
                let input = old(self).phase->NeedCwd_input;
                let (babs, bcs) = match cwd {
                    Some(c) => (spec_is_abs(c@), split_comps(c@)),
                    None => (false, seq![dot_comp()]),
                };
                &&& final(self).phase matches Phase::StartCheck { start }
                &&& (start.absolute, start.comps_seq()) == resolve_model(
                    babs,
                    bcs,
                    input.absolute,
                    input.comps_seq(),
                )
            }),
    {
        let base = match cwd {
            Some(c) => LexPath::parse(c),
            None => {
                let dot = String::from_str(".");
                proof {
                    reveal_strlit(".");
                    assert(dot@ =~= dot_comp());
                }
                let mut comps: Vec<String> = Vec::new();
                comps.push(dot);
                let p = LexPath { absolute: false, comps };
                proof {
                    assert(p.comps_seq() =~= seq![dot_comp()]);
                }
                p
            },
        };
        let start = match &self.phase {
            Phase::NeedCwd { input } => base.join(input).normalize(),
            _ => unreached(),
        };
        self.phase = Phase::StartCheck { start };
    }

    /// Hand the walk the outcome of the pending probe and advance it.
    ///
    /// Before the walk begins, a hit on the starting path collapses it to
    /// its parent (a regular file cannot be walked from, so the walk
    /// starts beside it).  During the walk, the current directory's
    /// candidate is yielded on a hit, and the walk moves to the parent
    /// directory either way; it ends when no parent remains.  A path is
    /// yielded only for a step whose probe answered true.
    pub fn advance(&mut self, hit: bool) -> (step: Step)
        requires
            !(old(self).phase is NeedCwd),
        ensures
            final(self).file_name == old(self).file_name,
            (old(self).phase matches Phase::StartCheck { start } ==> {
                &&& step is Continue
                &&& final(self).phase is Walking
                &&& final(self).current_model() == Some(
                    collapse_model(start.absolute, start.comps_seq(), hit),
                )
            }),
            (old(self).phase matches Phase::Walking { current } ==> match current {
                None => *final(self) == *old(self) && step is Done,
                Some(d) => {
                    &&& final(self).phase is Walking
                    &&& final(self).current_model() == parent_model(d.absolute, d.comps_seq())
                    &&& hit == (step is Yield)
                    &&& (step matches Step::Yield(p) ==> p@ == candidate_model(
                        d.absolute,
                        d.comps_seq(),
                        old(self).file_name@,
                    ))
                    &&& (!hit && d.comps_seq().len() > 0 ==> step is Continue)
                    &&& (!hit && d.comps_seq().len() == 0 ==> step is Done)
                },
            }),
    {
        let (new_current, step): (Option<LexPath>, Step) = match &self.phase {
            Phase::NeedCwd { .. } => unreached(),
            Phase::StartCheck { start } => {
                let cur = if hit {
                    match start.parent() {
                        Some(p) => p,
                        None => start.duplicate(),
                    }
                } else {
                    start.duplicate()
                };
                (Some(cur), Step::Continue)
            },
            Phase::Walking { current } => match current {
                None => (None, Step::Done),
                Some(d) => {
                    let yielded = if hit {
                        Some(d.child(self.file_name.as_str()).render())
                    } else {
                        None
                    };
                    let up = d.parent();
                    let ended = up.is_none();
                    let step = match yielded {
                        Some(s) => Step::Yield(s),
                        None => if ended {
                            Step::Done
                        } else {
                            Step::Continue
                        },
                    };
                    (up, step)
                },
            },
        };
        self.phase = Phase::Walking { current: new_current };
        step
    }

    /// The path whose "is this a regular file?" answer the walk needs
    /// next: the resolved starting path before the walk begins, then one
    /// candidate per directory; nothing once the walk is over.
    pub fn pending_probe(&self) -> (r: Option<String>)
        ensures
            match self.phase {
                Phase::NeedCwd { .. } => r is None,
                Phase::StartCheck { start } => r matches Some(s) && s@ == render_model(
                    start.absolute,
                    start.comps_seq(),
                ),
                Phase::Walking { current } => match current {
                    Some(d) => r matches Some(s) && s@ == candidate_model(
                        d.absolute,
                        d.comps_seq(),
                        self.file_name@,
                    ),
                    None => r is None,
                },
            },
    {
        match &self.phase {
            Phase::NeedCwd { .. } => None,
            Phase::StartCheck { start } => Some(start.render()),
            Phase::Walking { current } => match current {
                Some(d) => Some(d.child(self.file_name.as_str()).render()),
                None => None,
            },
        }
    }
}

/// The full sequence of paths a walk yields, given the starting
/// directory and an oracle `hits` that answers every probe: the
/// directory's candidate when it hits, then whatever the walk from the
/// parent yields.  One call of [`FindIter::advance`] corresponds to one
/// unfolding of this function.
pub open spec fn walk_model(
    abs: bool,
    cs: Seq<Seq<char>>,
    fname: Seq<char>,
    hits: spec_fn(Seq<char>) -> bool,
) -> Seq<Seq<char>>
    decreases cs.len(),
{
    let cand = candidate_model(abs, cs, fname);
    let tail: Seq<Seq<char>> = if cs.len() == 0 {
        Seq::empty()
    } else {
        walk_model(abs, cs.drop_last(), fname, hits)
    };
    if hits(cand) {
        seq![cand] + tail
    } else {
        tail
    }
}

/// The directories whose probes hit, in the order the walk visits them.
pub open spec fn walk_hit_dirs(
    abs: bool,
    cs: Seq<Seq<char>>,
    fname: Seq<char>,
    hits: spec_fn(Seq<char>) -> bool,
) -> Seq<Seq<Seq<char>>>
    decreases cs.len(),
{
    let cand = candidate_model(abs, cs, fname);
    let tail: Seq<Seq<Seq<char>>> = if cs.len() == 0 {
        Seq::empty()
    } else {
        walk_hit_dirs(abs, cs.drop_last(), fname, hits)
    };
    if hits(cand) {
        seq![cs] + tail
    } else {
        tail
    }
}

/// `anc` lies strictly above `desc`: fewer components, and exactly the
/// leading ones.
pub open spec fn strict_ancestor(anc: Seq<Seq<char>>, desc: Seq<Seq<char>>) -> bool {
    anc.len() < desc.len() && anc == desc.take(anc.len() as int)
}

/// Law: one step of the walk.  The whole yielded sequence is the current
/// directory's candidate (when its probe hits) followed by the walk from
/// the parent; a directory with no parent ends the walk after its own
/// probe.  This is the shape [`FindIter::advance`] steps through.
pub proof fn lemma_walk_step(
    abs: bool,
    cs: Seq<Seq<char>>,
    fname: Seq<char>,
    hits: spec_fn(Seq<char>) -> bool,
)
    ensures
        walk_model(abs, cs, fname, hits) == {
            let cand = candidate_model(abs, cs, fname);
            let head: Seq<Seq<char>> = if hits(cand) {
                seq![cand]
            } else {
                Seq::empty()
            };
            match parent_model(abs, cs) {
                Some(p) => head + walk_model(p.0, p.1, fname, hits),
                None => head,
            }
        },
{
    let cand = candidate_model(abs, cs, fname);
    if cs.len() == 0 && hits(cand) {
        assert(seq![cand] + Seq::<Seq<char>>::empty() =~= seq![cand]);
    }
    if cs.len() == 0 && !hits(cand) {
        assert(walk_model(abs, cs, fname, hits) =~= Seq::<Seq<char>>::empty());
    }
}

/// Law: termination.  The walk yields at most one path per directory
/// level: its length is bounded by the component count of the starting
/// directory plus one, so the walk ends after finitely many steps.
pub proof fn lemma_walk_terminates(
    abs: bool,
    cs: Seq<Seq<char>>,
    fname: Seq<char>,
    hits: spec_fn(Seq<char>) -> bool,
)
    ensures
        walk_model(abs, cs, fname, hits).len() <= cs.len() + 1,
    decreases cs.len(),
{
    if cs.len() > 0 {
        lemma_walk_terminates(abs, cs.drop_last(), fname, hits);
    }
}

/// Every hit directory is a prefix of the starting directory, hit
/// directories strictly shorten as the walk proceeds, and each yielded
/// path is its hit directory's candidate.
proof fn lemma_walk_structure(
    abs: bool,
    cs: Seq<Seq<char>>,
    fname: Seq<char>,
    hits: spec_fn(Seq<char>) -> bool,
)
    ensures
        walk_model(abs, cs, fname, hits).len() == walk_hit_dirs(abs, cs, fname, hits).len(),
        forall|i: int|
            0 <= i < walk_hit_dirs(abs, cs, fname, hits).len() ==> {
                let d = #[trigger] walk_hit_dirs(abs, cs, fname, hits)[i];
                d.len() <= cs.len() && d == cs.take(d.len() as int) && walk_model(
                    abs,
                    cs,
                    fname,
                    hits,
                )[i] == candidate_model(abs, d, fname)
            },
        forall|i: int, j: int|
            0 <= i < j < walk_hit_dirs(abs, cs, fname, hits).len() ==> #[trigger] walk_hit_dirs(
                abs,
                cs,
                fname,
                hits,
            )[j].len() < #[trigger] walk_hit_dirs(abs, cs, fname, hits)[i].len(),
    decreases cs.len(),
{
    let w = walk_model(abs, cs, fname, hits);
    let h = walk_hit_dirs(abs, cs, fname, hits);
    let cand = candidate_model(abs, cs, fname);
    assert(cs.take(cs.len() as int) =~= cs);
    if cs.len() == 0 {
    } else {
        let cs2 = cs.drop_last();
        lemma_walk_structure(abs, cs2, fname, hits);
        let w2 = walk_model(abs, cs2, fname, hits);
        let h2 = walk_hit_dirs(abs, cs2, fname, hits);
        assert forall|i: int| 0 <= i < h2.len() implies h2[i].len() <= cs.len() && h2[i] == cs.take(
            h2[i].len() as int,
        ) by {
            assert(h2[i] == cs2.take(h2[i].len() as int));
            assert(cs2.take(h2[i].len() as int) =~= cs.take(h2[i].len() as int));
        }
        if hits(cand) {
            assert(w == seq![cand] + w2);
            assert(h == seq![cs] + h2);
            assert(h[0] == cs);
            assert(w[0] == cand);
            assert(forall|i: int| 0 <= i < h2.len() ==> h[i + 1] == #[trigger] h2[i]);
            assert(forall|i: int| 0 <= i < w2.len() ==> w[i + 1] == #[trigger] w2[i]);
            assert forall|i: int, j: int| 0 <= i < j < h.len() implies #[trigger] h[j].len()
                < #[trigger] h[i].len() by {
                if i == 0 {
                    assert(h[j] == h2[j - 1]);
                    assert(h2[j - 1].len() <= cs2.len());
                } else {
                    assert(h[i] == h2[i - 1]);
                    assert(h[j] == h2[j - 1]);
                }
            }
        } else {
            assert(w == w2);
            assert(h == h2);
        }
    }
}

/// Law: monotone ascent.  Of any two yielded paths, the later one's
/// directory lies strictly above the earlier one's: the walk only ever
/// moves toward the root.
pub proof fn lemma_monotone_ascent(
    abs: bool,
    cs: Seq<Seq<char>>,
    fname: Seq<char>,
    hits: spec_fn(Seq<char>) -> bool,
    i: int,
    j: int,
)
    requires
        0 <= i < j < walk_hit_dirs(abs, cs, fname, hits).len(),
    ensures
        strict_ancestor(
            walk_hit_dirs(abs, cs, fname, hits)[j],
            walk_hit_dirs(abs, cs, fname, hits)[i],
        ),
        walk_model(abs, cs, fname, hits)[i] == candidate_model(
            abs,
            walk_hit_dirs(abs, cs, fname, hits)[i],
            fname,
        ),
        walk_model(abs, cs, fname, hits)[j] == candidate_model(
            abs,
            walk_hit_dirs(abs, cs, fname, hits)[j],
            fname,
        ),
{
    lemma_walk_structure(abs, cs, fname, hits);
    let h = walk_hit_dirs(abs, cs, fname, hits);
    assert(h[i] == cs.take(h[i].len() as int));
    assert(h[j] == cs.take(h[j].len() as int));
    assert(cs.take(h[i].len() as int).take(h[j].len() as int) =~= cs.take(h[j].len() as int));
}

/// Law: filename fidelity.  Every path the walk yields ends in exactly
/// the target filename.
pub proof fn lemma_filename_fidelity(
    abs: bool,
    cs: Seq<Seq<char>>,
    fname: Seq<char>,
    hits: spec_fn(Seq<char>) -> bool,
    i: int,
)
    requires
        wf_comp(fname),
        0 <= i < walk_model(abs, cs, fname, hits).len(),
    ensures
        basename(walk_model(abs, cs, fname, hits)[i]) == fname,
{
    lemma_walk_structure(abs, cs, fname, hits);
    let d = walk_hit_dirs(abs, cs, fname, hits)[i];
    lemma_basename_candidate(abs, d, fname);
}

/// Law: determinism.  Two walks from the same start, over oracles that
/// answer every probe alike, yield identical sequences.
pub proof fn lemma_walk_deterministic(
    abs: bool,
    cs: Seq<Seq<char>>,
    fname: Seq<char>,
    h1: spec_fn(Seq<char>) -> bool,
    h2: spec_fn(Seq<char>) -> bool,
)
    requires
        forall|p: Seq<char>| #[trigger] h1(p) == h2(p),
    ensures
        walk_model(abs, cs, fname, h1) == walk_model(abs, cs, fname, h2),
    decreases cs.len(),
{
    if cs.len() > 0 {
        lemma_walk_deterministic(abs, cs.drop_last(), fname, h1, h2);
    }
}

/// Law: a collapsed file input is never yielded for its own sake.  The
/// walk yields only paths ending in the target filename, so a path whose
/// basename differs from it — such as the file the search started from,
/// unless it is itself named like the target — never appears.
pub proof fn lemma_no_foreign_yield(
    abs: bool,
    cs: Seq<Seq<char>>,
    fname: Seq<char>,
    hits: spec_fn(Seq<char>) -> bool,
    p: Seq<char>,
    i: int,
)
    requires
        wf_comp(fname),
        basename(p) != fname,
        0 <= i < walk_model(abs, cs, fname, hits).len(),
    ensures
        walk_model(abs, cs, fname, hits)[i] != p,
{
    lemma_filename_fidelity(abs, cs, fname, hits, i);
}

} // verus!
