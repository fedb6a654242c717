//! The confined filesystem: a per-server tree addressed by paths relative
//! to a base directory. Every operation resolves its path component by
//! component, so a symbolic link whose target is absolute or climbs out of
//! the base never escapes: an escape fails with `NotFound`, just as a
//! missing file does. The engine also enforces the server's ignore rules on
//! writes and its disk quota, and tracks bytes used.

use vstd::prelude::*;
use crate::ignore_rules::{IgnoreRules, pv, spec_join, spec_ignore_match};

verus! {

/// How a confined-filesystem operation fails. An escape is reported as
/// `NotFound`, indistinguishable from a missing file.
#[derive(Clone, Copy, PartialEq, Eq, Structural, Debug)]
pub enum FsError {
    NotFound,
    Ignored,
    QuotaExceeded,
}

/// One node of the tree. A symlink stores its target verbatim, as an
/// absolute flag plus components; it is never dereferenced on read.
#[derive(Clone, Debug)]
pub enum Node {
    Dir { mode: u32, mtime: u64 },
    File { mode: u32, mtime: u64, data: Vec<u8> },
    Symlink { target_abs: bool, target: Vec<String> },
}

/// Mathematical image of a node.
pub enum NodeV {
    Dir { mode: u32, mtime: u64 },
    File { mode: u32, mtime: u64, data: Seq<u8> },
    Symlink { target_abs: bool, target: Seq<Seq<char>> },
}

pub open spec fn nv(n: Node) -> NodeV {
    match n {
        Node::Dir { mode, mtime } => NodeV::Dir { mode, mtime },
        Node::File { mode, mtime, data } => NodeV::File { mode, mtime, data: data@ },
        Node::Symlink { target_abs, target } => NodeV::Symlink {
            target_abs,
            target: pv(target@),
        },
    }
}

/// One entry: a path (components relative to the base) and its node.
#[derive(Clone, Debug)]
pub struct FsEntry {
    pub path: Vec<String>,
    pub node: Node,
}

pub struct EntryV {
    pub path: Seq<Seq<char>>,
    pub node: NodeV,
}

pub open spec fn ev(e: FsEntry) -> EntryV {
    EntryV { path: pv(e.path@), node: nv(e.node) }
}

/// A component that neither names the current nor the parent directory and
/// is not empty: the only kind a resolved path may hold.
pub open spec fn clean_component(c: Seq<char>) -> bool {
    c.len() > 0 && c != seq!['.'] && c != seq!['.', '.']
}

pub open spec fn clean_path(p: Seq<Seq<char>>) -> bool {
    forall|i: int| 0 <= i < p.len() ==> clean_component(#[trigger] p[i])
}

/// The first entry with the given path, scanning front to back.
pub open spec fn spec_find(s: Seq<EntryV>, path: Seq<Seq<char>>) -> Option<EntryV>
    decreases s.len(),
{
    if s.len() == 0 {
        Option::None
    } else if s[0].path == path {
        Some(s[0])
    } else {
        spec_find(s.subrange(1, s.len() as int), path)
    }
}

pub proof fn lemma_find_step(s: Seq<EntryV>, path: Seq<Seq<char>>, i: int)
    requires
        0 <= i < s.len(),
        s[i].path != path,
    ensures
        spec_find(s.subrange(i, s.len() as int), path) == spec_find(
            s.subrange(i + 1, s.len() as int),
            path,
        ),
{
    let tail = s.subrange(i, s.len() as int);
    assert(tail[0] == s[i]);
    assert(tail.subrange(1, tail.len() as int) =~= s.subrange(i + 1, s.len() as int));
}

/// Bytes a node occupies against the quota: file contents only.
pub open spec fn node_size(n: NodeV) -> nat {
    match n {
        NodeV::File { data, .. } => data.len(),
        _ => 0,
    }
}

/// Bytes the whole tree occupies.
pub open spec fn total_bytes(s: Seq<EntryV>) -> nat
    decreases s.len(),
{
    if s.len() == 0 {
        0
    } else {
        total_bytes(s.drop_last()) + node_size(s.last().node)
    }
}

pub open spec fn paths_clean(s: Seq<EntryV>) -> bool {
    forall|i: int|
        0 <= i < s.len() ==> clean_path(#[trigger] s[i].path) && s[i].path.len() >= 1
}

pub open spec fn unique_paths(s: Seq<EntryV>) -> bool {
    forall|i: int, j: int|
        0 <= i < j < s.len() ==> (#[trigger] s[i].path) != (#[trigger] s[j].path)
}

/// Every nested entry's parent stands earlier in the list as a directory.
pub open spec fn parents_closed(s: Seq<EntryV>) -> bool {
    forall|i: int|
        0 <= i < s.len() && (#[trigger] s[i].path).len() > 1 ==> exists|j: int|
            0 <= j < i && (#[trigger] s[j].path) == s[i].path.drop_last() && s[j].node is Dir
}

/// The confined filesystem model. Entries are kept with parents before
/// children; `usage` is the authoritative byte count `total_bytes` names.
pub struct ConfinedFs {
    entries: Vec<FsEntry>,
    ignore: IgnoreRules,
    usage: u64,
    limit: u64,
}

/// Resolution of `pending` against the tree, `done` components already
/// resolved. Empty and `.` components are skipped; `..` climbs within the
/// base and fails on an attempt to climb out; a symlink met on the way (or
/// at the end, when following) is spliced in, its absolute targets refused,
/// with `fuel` bounding link chains. A file or a missing name anywhere but
/// last fails. The result is the real path, clean and inside the base.
pub open spec fn spec_resolve(
    s: Seq<EntryV>,
    done: Seq<Seq<char>>,
    pending: Seq<Seq<char>>,
    fuel: nat,
    follow_last: bool,
) -> Option<Seq<Seq<char>>>
    decreases fuel, pending.len(),
{
    if pending.len() == 0 {
        Some(done)
    } else {
        let c = pending[0];
        let rest = pending.subrange(1, pending.len() as int);
        if c.len() == 0 || c == seq!['.'] {
            spec_resolve(s, done, rest, fuel, follow_last)
        } else if c == seq!['.', '.'] {
            if done.len() == 0 {
                Option::None
            } else {
                spec_resolve(s, done.drop_last(), rest, fuel, follow_last)
            }
        } else {
            let np = done.push(c);
            match spec_find(s, np) {
                Some(e) => match e.node {
                    NodeV::Symlink { target_abs, target } => {
                        if rest.len() == 0 && !follow_last {
                            Some(np)
                        } else if target_abs {
                            Option::None
                        } else if fuel == 0 {
                            Option::None
                        } else {
                            spec_resolve(s, done, target + rest, (fuel - 1) as nat, follow_last)
                        }
                    },
                    NodeV::Dir { .. } => spec_resolve(s, np, rest, fuel, follow_last),
                    NodeV::File { .. } => if rest.len() == 0 {
                        Some(np)
                    } else {
                        Option::None
                    },
                },
                Option::None => if rest.len() == 0 {
                    Some(np)
                } else {
                    Option::None
                },
            }
        }
    }
}

/// Every nonempty prefix of `p` exists in the tree as a directory.
pub open spec fn prefixes_are_dirs(s: Seq<EntryV>, p: Seq<Seq<char>>) -> bool {
    forall|k: int|
        1 <= k <= p.len() ==> ((#[trigger] spec_find(s, p.subrange(0, k))) matches Some(e)
            && e.node is Dir)
}

/// The parent of `p` (when `p` is not top-level) exists as a directory.
pub open spec fn parent_ok(s: Seq<EntryV>, p: Seq<Seq<char>>) -> bool {
    p.len() <= 1 || (spec_find(s, p.drop_last()) matches Some(e) && e.node is Dir)
}

/// Confinement: whatever the symlinks in the tree, a successful resolution
/// is a clean path — a descendant of the base — and its parent chain exists
/// as directories.
pub proof fn lemma_resolve_confined(
    s: Seq<EntryV>,
    done: Seq<Seq<char>>,
    pending: Seq<Seq<char>>,
    fuel: nat,
    follow_last: bool,
)
    requires
        clean_path(done),
        prefixes_are_dirs(s, done),
    ensures
        spec_resolve(s, done, pending, fuel, follow_last) matches Some(p) ==> clean_path(p)
            && parent_ok(s, p),
    decreases fuel, pending.len(),
{
    if pending.len() == 0 {
        if done.len() > 1 {
            assert(spec_find(s, done.subrange(0, done.len() - 1)) matches Some(e) && e.node is Dir);
            assert(done.drop_last() =~= done.subrange(0, done.len() - 1));
        }
    } else {
        let c = pending[0];
        let rest = pending.subrange(1, pending.len() as int);
        if c.len() == 0 || c == seq!['.'] {
            lemma_resolve_confined(s, done, rest, fuel, follow_last);
        } else if c == seq!['.', '.'] {
            if done.len() > 0 {
                assert(clean_path(done.drop_last())) by {
                    assert(forall|i: int|
                        0 <= i < done.drop_last().len() ==> clean_component(
                            #[trigger] done.drop_last()[i],
                        ));
                };
                assert forall|k: int| 1 <= k <= done.drop_last().len() implies ((
                #[trigger] spec_find(s, done.drop_last().subrange(0, k))) matches Some(e)
                    && e.node is Dir) by {
                    assert(done.drop_last().subrange(0, k) =~= done.subrange(0, k));
                    assert((spec_find(s, done.subrange(0, k)) matches Some(e) && e.node is Dir));
                };
                lemma_resolve_confined(s, done.drop_last(), rest, fuel, follow_last);
            }
        } else {
            let np = done.push(c);
            assert(clean_component(c));
            assert(clean_path(np)) by {
                assert(forall|i: int| 0 <= i < done.len() ==> np[i] == done[i]);
            };
            assert(np.drop_last() =~= done);
            match spec_find(s, np) {
                Some(e) => match e.node {
                    NodeV::Symlink { target_abs, target } => {
                        if rest.len() == 0 && !follow_last {
                            if np.len() > 1 {
                                assert(spec_find(s, done.subrange(0, done.len() as int)) matches
                                    Some(d) && d.node is Dir);
                                assert(done.subrange(0, done.len() as int) =~= done);
                            }
                        } else if !target_abs && fuel > 0 {
                            lemma_resolve_confined(
                                s,
                                done,
                                target + rest,
                                (fuel - 1) as nat,
                                follow_last,
                            );
                        }
                    },
                    NodeV::Dir { .. } => {
                        assert(prefixes_are_dirs(s, np)) by {
                            assert(forall|k: int|
                                1 <= k <= done.len() ==> np.subrange(0, k) =~= done.subrange(0, k));
                            assert(np.subrange(0, np.len() as int) =~= np);
                        };
                        lemma_resolve_confined(s, np, rest, fuel, follow_last);
                    },
                    NodeV::File { .. } => {
                        if rest.len() == 0 && np.len() > 1 {
                            assert(done.subrange(0, done.len() as int) =~= done);
                        }
                    },
                },
                Option::None => {
                    if rest.len() == 0 && np.len() > 1 {
                        assert(done.subrange(0, done.len() as int) =~= done);
                    }
                },
            }
        }
    }
}

impl ConfinedFs {
    /// The entries as mathematical values, in stored order.
    pub closed spec fn view(&self) -> Seq<EntryV> {
        self.entries@.map_values(|e: FsEntry| ev(e))
    }

    pub closed spec fn spec_usage(&self) -> u64 {
        self.usage
    }

    pub closed spec fn spec_limit(&self) -> u64 {
        self.limit
    }

    pub closed spec fn rules_view(&self) -> Seq<Seq<char>> {
        self.ignore.rules_view()
    }

    /// The quota actually enforced: a configured limit, or the counter's
    /// machine bound when none is set.
    pub open spec fn effective_limit(&self) -> u64 {
        if self.spec_limit() == 0 {
            u64::MAX
        } else {
            self.spec_limit()
        }
    }

    /// Well-formedness: clean unique paths, every parent present earlier as
    /// a directory, and the usage counter equal to the bytes stored.
    pub open spec fn wf(&self) -> bool {
        &&& paths_clean(self.view())
        &&& unique_paths(self.view())
        &&& parents_closed(self.view())
        &&& self.spec_usage() as nat == total_bytes(self.view())
        &&& self.spec_usage() <= self.effective_limit()
    }

    /// An empty confined filesystem with the given quota (`0` for none) and
    /// ignore rules.
    pub fn new(limit: u64, ignore: IgnoreRules) -> (r: ConfinedFs)
        ensures
            r.wf(),
            r.view().len() == 0,
            r.spec_usage() == 0,
            r.spec_limit() == limit,
            r.rules_view() == ignore.rules_view(),
    {
        let r = ConfinedFs { entries: Vec::new(), ignore, usage: 0, limit };
        proof {
            assert(r.view() =~= Seq::<EntryV>::empty());
        }
        r
    }

    /// Bytes used, as the engine tracks them.
    pub fn limiter_usage(&self) -> (r: u64)
        ensures
            r == self.spec_usage(),
    {
        self.usage
    }

    /// The verdict of the server's ignore rules on a path.
    pub fn is_ignored(&self, path: &Vec<String>, is_dir: bool) -> (r: bool)
        ensures
            r == spec_ignore_match(self.rules_view(), spec_join(pv(path@)), is_dir),
    {
        self.ignore.matches_components(path, is_dir)
    }

    /// Index of the entry with this exact path, if one exists.
    fn find(&self, path: &Vec<String>) -> (r: Option<usize>)
        ensures
            match r {
                Some(i) => i < self.view().len() && self.view()[i as int].path == pv(path@)
                    && spec_find(self.view(), pv(path@)) == Some(self.view()[i as int]),
                Option::None => spec_find(self.view(), pv(path@)) is None,
            },
    {
        let ghost target = pv(path@);
        proof {
            assert(self.view().subrange(0, self.view().len() as int) =~= self.view());
        }
        let mut i: usize = 0;
        while i < self.entries.len()
            invariant
                0 <= i <= self.view().len(),
                self.view().len() == self.entries@.len(),
                spec_find(self.view(), target) == spec_find(
                    self.view().subrange(i as int, self.view().len() as int),
                    target,
                ),
                target == pv(path@),
            decreases self.view().len() - i,
        {
            if path_eq(&self.entries[i].path, path) {
                proof {
                    let tail = self.view().subrange(i as int, self.view().len() as int);
                    assert(tail[0] == self.view()[i as int]);
                }
                return Some(i);
            }
            proof {
                lemma_find_step(self.view(), target, i as int);
            }
            i += 1;
        }
        proof {
            assert(self.view().subrange(i as int, self.view().len() as int).len() == 0);
        }
        Option::None
    }
}

/// How one path component steers resolution.
#[derive(Clone, Copy, PartialEq, Eq, Structural, Debug)]
pub enum CompClass {
    Skip,
    Up,
    Name,
}

pub open spec fn spec_classify(c: Seq<char>) -> CompClass {
    if c.len() == 0 || c == seq!['.'] {
        CompClass::Skip
    } else if c == seq!['.', '.'] {
        CompClass::Up
    } else {
        CompClass::Name
    }
}

/// Classifies a component: empty and `.` are skipped, `..` climbs, the
/// rest are names.
pub fn classify_component(c: &str) -> (r: CompClass)
    ensures
        r == spec_classify(c@),
{
    let n = vstd::string::StrSliceExecFns::unicode_len(c);
    if n == 0 {
        CompClass::Skip
    } else if n == 1 {
        if vstd::string::StrSliceExecFns::get_char(c, 0) == '.' {
            proof {
                assert(c@ =~= seq!['.']);
            }
            CompClass::Skip
        } else {
            proof {
                assert(c@[0] != '.');
                assert(c@ != seq!['.']);
                assert(c@.len() != 2);
            }
            CompClass::Name
        }
    } else if n == 2 {
        if vstd::string::StrSliceExecFns::get_char(c, 0) == '.'
            && vstd::string::StrSliceExecFns::get_char(c, 1) == '.' {
            proof {
                assert(c@ =~= seq!['.', '.']);
            }
            CompClass::Up
        } else {
            proof {
                assert(c@ != seq!['.', '.']);
                assert(c@.len() != 1);
            }
            CompClass::Name
        }
    } else {
        proof {
            assert(c@.len() != 1 && c@.len() != 2);
        }
        CompClass::Name
    }
}

/// A copy of a path vector.
pub fn clone_path(v: &Vec<String>) -> (r: Vec<String>)
    ensures
        pv(r@) == pv(v@),
{
    let mut r: Vec<String> = Vec::new();
    let mut i: usize = 0;
    while i < v.len()
        invariant
            0 <= i <= v@.len(),
            r@.len() == i,
            forall|j: int| 0 <= j < i ==> r@[j]@ == v@[j]@,
        decreases v@.len() - i,
    {
        r.push(v[i].clone());
        i += 1;
    }
    proof {
        assert(pv(r@) =~= pv(v@));
    }
    r
}

impl ConfinedFs {
    /// Resolves a user-supplied relative path against the tree, following
    /// symlinks met on the way (and, when `follow_last` is set, one at the
    /// end). An escape of any kind fails with `NotFound`.
    pub fn resolve(&self, path: &Vec<String>, follow_last: bool) -> (r: Result<
        Vec<String>,
        FsError,
    >)
        ensures
            match r {
                Ok(p) => spec_resolve(self.view(), Seq::empty(), pv(path@), 40, follow_last)
                    == Some(pv(p@)),
                Err(e) => e == FsError::NotFound && spec_resolve(
                    self.view(),
                    Seq::empty(),
                    pv(path@),
                    40,
                    follow_last,
                ) is None,
            },
    {
        let ghost answer = spec_resolve(self.view(), Seq::empty(), pv(path@), 40, follow_last);
        let mut done: Vec<String> = Vec::new();
        let mut pending: Vec<String> = clone_path(path);
        let mut fuel: u64 = 40;
        proof {
            assert(pv(done@) =~= Seq::<Seq<char>>::empty());
        }
        loop
            invariant
                fuel <= 40,
                answer == spec_resolve(self.view(), Seq::empty(), pv(path@), 40, follow_last),
                spec_resolve(self.view(), pv(done@), pv(pending@), fuel as nat, follow_last)
                    == answer,
            decreases fuel, pending@.len(),
        {
            let ghost s = self.view();
            let ghost d0 = pv(done@);
            let ghost p0 = pv(pending@);
            let ghost f0 = fuel as nat;
            if pending.len() == 0 {
                proof {
                    assert(spec_resolve(s, d0, p0, f0, follow_last) == Some(d0));
                }
                return Ok(done);
            }
            let ghost pend0 = pv(pending@);
            let ghost rest = pend0.subrange(1, pend0.len() as int);
            let c = pending.remove(0);
            proof {
                assert(pend0[0] == c@);
                assert(pv(pending@) =~= rest);
            }
            match classify_component(c.as_str()) {
                CompClass::Skip => {
                    proof {
                        assert(spec_resolve(s, d0, p0, f0, follow_last) == spec_resolve(
                            s,
                            d0,
                            rest,
                            f0,
                            follow_last,
                        ));
                    }
                },
                CompClass::Up => {
                    if done.len() == 0 {
                        proof {
                            assert(d0.len() == 0);
                            assert(spec_resolve(s, d0, p0, f0, follow_last) is None);
                        }
                        return Err(FsError::NotFound);
                    }
                    let ghost done0 = pv(done@);
                    let _ = done.pop();
                    proof {
                        assert(pv(done@) =~= done0.drop_last());
                        assert(spec_resolve(s, d0, p0, f0, follow_last) == spec_resolve(
                            s,
                            d0.drop_last(),
                            rest,
                            f0,
                            follow_last,
                        ));
                    }
                },
                CompClass::Name => {
                    done.push(c);
                    let ghost np = pv(done@);
                    proof {
                        assert(np =~= d0.push(pend0[0]));
                    }
                    match self.find(&done) {
                        Some(i) => {
                            proof {
                                assert(self.view()[i as int].node == nv(
                                    self.entries@[i as int].node,
                                ));
                            }
                            match &self.entries[i].node {
                                Node::Symlink { target_abs, target } => {
                                    if pending.len() == 0 && !follow_last {
                                        proof {
                                            assert(spec_resolve(s, d0, p0, f0, follow_last)
                                                == Some(np));
                                        }
                                        return Ok(done);
                                    }
                                    if *target_abs {
                                        proof {
                                            assert(spec_resolve(s, d0, p0, f0, follow_last)
                                                is None);
                                        }
                                        return Err(FsError::NotFound);
                                    }
                                    if fuel == 0 {
                                        proof {
                                            assert(spec_resolve(s, d0, p0, f0, follow_last)
                                                is None);
                                        }
                                        return Err(FsError::NotFound);
                                    }
                                    fuel = fuel - 1;
                                    let mut expanded = clone_path(target);
                                    let ghost tv = pv(expanded@);
                                    proof {
                                        assert(tv == pv(target@));
                                    }
                                    let mut k: usize = 0;
                                    while k < pending.len()
                                        invariant
                                            0 <= k <= pending@.len(),
                                            expanded@.len() == tv.len() + k,
                                            forall|j: int| 0 <= j < tv.len() ==> expanded@[j]@ == tv[j],
                                            forall|j: int|
                                                0 <= j < k ==> expanded@[tv.len() + j]@ == pv(
                                                    pending@,
                                                )[j],
                                        decreases pending@.len() - k,
                                    {
                                        expanded.push(pending[k].clone());
                                        k += 1;
                                    }
                                    proof {
                                        assert(pv(expanded@) =~= tv + rest);
                                    }
                                    let _ = done.pop();
                                    proof {
                                        assert(pv(done@) =~= d0);
                                        assert(spec_resolve(s, d0, p0, f0, follow_last)
                                            == spec_resolve(
                                            s,
                                            d0,
                                            tv + rest,
                                            (f0 - 1) as nat,
                                            follow_last,
                                        ));
                                    }
                                    pending = expanded;
                                },
                                Node::Dir { .. } => {
                                    proof {
                                        assert(spec_resolve(s, d0, p0, f0, follow_last)
                                            == spec_resolve(s, np, rest, f0, follow_last));
                                    }
                                },
                                Node::File { .. } => {
                                    if pending.len() == 0 {
                                        proof {
                                            assert(spec_resolve(s, d0, p0, f0, follow_last)
                                                == Some(np));
                                        }
                                        return Ok(done);
                                    }
                                    proof {
                                        assert(spec_resolve(s, d0, p0, f0, follow_last) is None);
                                    }
                                    return Err(FsError::NotFound);
                                },
                            }
                        },
                        Option::None => {
                            if pending.len() == 0 {
                                proof {
                                    assert(spec_resolve(s, d0, p0, f0, follow_last) == Some(np));
                                }
                                return Ok(done);
                            }
                            proof {
                                assert(spec_resolve(s, d0, p0, f0, follow_last) is None);
                            }
                            return Err(FsError::NotFound);
                        },
                    }
                },
            }
        }
    }
}

/// Resolution of a user path from the base, with the engine's link budget.
pub open spec fn spec_resolved(s: Seq<EntryV>, path: Seq<Seq<char>>, follow_last: bool) -> Option<
    Seq<Seq<char>>,
> {
    spec_resolve(s, Seq::empty(), path, 40, follow_last)
}

pub proof fn lemma_total_push(s: Seq<EntryV>, e: EntryV)
    ensures
        total_bytes(s.push(e)) == total_bytes(s) + node_size(e.node),
{
    assert(s.push(e).drop_last() =~= s);
    assert(s.push(e).last() == e);
}

pub proof fn lemma_total_update(s: Seq<EntryV>, i: int, e: EntryV)
    requires
        0 <= i < s.len(),
    ensures
        total_bytes(s.update(i, e)) + node_size(s[i].node) == total_bytes(s) + node_size(e.node),
    decreases s.len(),
{
    let u = s.update(i, e);
    if i == s.len() - 1 {
        assert(u.drop_last() =~= s.drop_last());
        assert(u.last() == e);
    } else {
        assert(u.drop_last() =~= s.drop_last().update(i, e));
        assert(u.last() == s.last());
        lemma_total_update(s.drop_last(), i, e);
    }
}

pub proof fn lemma_total_front(s: Seq<EntryV>)
    requires
        s.len() > 0,
    ensures
        total_bytes(s) == node_size(s[0].node) + total_bytes(s.subrange(1, s.len() as int)),
    decreases s.len(),
{
    let tail = s.subrange(1, s.len() as int);
    if s.len() == 1 {
        assert(s.drop_last().len() == 0);
        assert(tail.len() == 0);
        assert(s.last() == s[0]);
        assert(total_bytes(s.drop_last()) == 0);
        assert(total_bytes(tail) == 0);
        assert(total_bytes(s) == total_bytes(s.drop_last()) + node_size(s.last().node));
    } else {
        lemma_total_front(s.drop_last());
        assert(s.drop_last()[0] == s[0]);
        assert(s.drop_last().subrange(1, s.drop_last().len() as int) =~= tail.drop_last());
        assert(tail.last() == s.last());
        assert(tail.len() > 0);
        assert(total_bytes(tail) == total_bytes(tail.drop_last()) + node_size(tail.last().node));
        assert(total_bytes(s) == total_bytes(s.drop_last()) + node_size(s.last().node));
    }
}

/// A found entry's stored bytes never exceed the tree total.
pub proof fn lemma_find_size(s: Seq<EntryV>, p: Seq<Seq<char>>)
    ensures
        spec_find(s, p) matches Some(e) ==> node_size(e.node) <= total_bytes(s),
    decreases s.len(),
{
    if s.len() > 0 {
        lemma_total_front(s);
        if s[0].path != p {
            lemma_find_size(s.subrange(1, s.len() as int), p);
        }
    }
}

/// No entry carries a path that `spec_find` misses.
pub proof fn lemma_find_none(s: Seq<EntryV>, p: Seq<Seq<char>>)
    requires
        spec_find(s, p) is None,
    ensures
        forall|i: int| 0 <= i < s.len() ==> (#[trigger] s[i].path) != p,
    decreases s.len(),
{
    if s.len() > 0 {
        let tail = s.subrange(1, s.len() as int);
        lemma_find_none(tail, p);
        assert(forall|i: int| 1 <= i < s.len() ==> s[i] == tail[i - 1]);
    }
}

/// A found entry stands somewhere in the list.
pub proof fn lemma_find_some_index(s: Seq<EntryV>, p: Seq<Seq<char>>)
    requires
        spec_find(s, p) is Some,
    ensures
        exists|i: int|
            0 <= i < s.len() && #[trigger] s[i] == spec_find(s, p)->Some_0 && s[i].path == p,
    decreases s.len(),
{
    if s.len() > 0 {
        if s[0].path == p {
            assert(s[0] == spec_find(s, p)->Some_0);
        } else {
            let tail = s.subrange(1, s.len() as int);
            lemma_find_some_index(tail, p);
            let i = choose|i: int|
                0 <= i < tail.len() && #[trigger] tail[i] == spec_find(tail, p)->Some_0
                    && tail[i].path == p;
            assert(s[i + 1] == tail[i]);
        }
    }
}

/// Replacing the entry at `i` by one with the same path changes exactly
/// that path's lookup.
pub proof fn lemma_find_update(s: Seq<EntryV>, i: int, e: EntryV, q: Seq<Seq<char>>)
    requires
        0 <= i < s.len(),
        s[i].path == e.path,
        unique_paths(s),
    ensures
        spec_find(s.update(i, e), q) == if q == e.path {
            Some(e)
        } else {
            spec_find(s, q)
        },
    decreases s.len(),
{
    let u = s.update(i, e);
    if i == 0 {
        assert(u[0] == e);
        if q != e.path {
            assert(u.subrange(1, u.len() as int) =~= s.subrange(1, s.len() as int));
        }
    } else {
        assert(u[0] == s[0]);
        let stail = s.subrange(1, s.len() as int);
        assert(u.subrange(1, u.len() as int) =~= stail.update(i - 1, e));
        assert(unique_paths(stail)) by {
            assert(forall|a: int, b: int|
                0 <= a < b < stail.len() ==> stail[a] == s[a + 1] && stail[b] == s[b + 1]);
        };
        assert(stail[i - 1] == s[i]);
        lemma_find_update(stail, i - 1, e, q);
        if s[0].path == q {
            assert(s[0].path != s[i].path);
        }
    }
}

/// Appending a fresh entry changes exactly its own path's lookup.
pub proof fn lemma_find_push(s: Seq<EntryV>, e: EntryV, q: Seq<Seq<char>>)
    ensures
        spec_find(s.push(e), q) == match spec_find(s, q) {
            Some(x) => Some(x),
            Option::None => if q == e.path {
                Some(e)
            } else {
                Option::None
            },
        },
    decreases s.len(),
{
    let u = s.push(e);
    if s.len() == 0 {
        assert(u[0] == e);
        if q == e.path {
            assert(spec_find(u, q) == Some(e));
        } else {
            assert(u.subrange(1, u.len() as int).len() == 0);
            assert(spec_find(u.subrange(1, u.len() as int), q) is None);
            assert(spec_find(u, q) is None);
        }
    } else {
        assert(u[0] == s[0]);
        assert(u.subrange(1, u.len() as int) =~= s.subrange(1, s.len() as int).push(e));
        lemma_find_push(s.subrange(1, s.len() as int), e, q);
        if s[0].path == q {
            assert(spec_find(s, q) == Some(s[0]));
            assert(spec_find(u, q) == Some(u[0]));
        } else {
            assert(spec_find(s, q) == spec_find(s.subrange(1, s.len() as int), q));
            assert(spec_find(u, q) == spec_find(u.subrange(1, u.len() as int), q));
        }
    }
}

/// What a node looks like from outside: its kind and the stat fields.
#[derive(Clone, Copy, PartialEq, Eq, Structural, Debug)]
pub enum NodeKind {
    Dir,
    File,
    Symlink,
}

#[derive(Clone, Copy, PartialEq, Eq, Structural, Debug)]
pub struct Metadata {
    pub kind: NodeKind,
    pub mode: u32,
    pub mtime: u64,
    pub size: u64,
}

pub open spec fn spec_meta(n: NodeV) -> Metadata {
    match n {
        NodeV::Dir { mode, mtime } => Metadata { kind: NodeKind::Dir, mode, mtime, size: 0 },
        NodeV::File { mode, mtime, data } => Metadata {
            kind: NodeKind::File,
            mode,
            mtime,
            size: data.len() as u64,
        },
        NodeV::Symlink { .. } => Metadata { kind: NodeKind::Symlink, mode: 0o777, mtime: 0, size: 0 },
    }
}

/// A symlink's stored target, verbatim.
pub struct LinkTarget {
    pub absolute: bool,
    pub components: Vec<String>,
}

impl ConfinedFs {
    /// Stat through the resolver; `follow_last` decides whether a symlink
    /// at the end is followed or described itself.
    pub fn stat(&self, path: &Vec<String>, follow_last: bool) -> (r: Result<Metadata, FsError>)
        ensures
            match r {
                Ok(m) => (spec_resolved(self.view(), pv(path@), follow_last) matches Some(p)
                    && spec_find(self.view(), p) matches Some(e) && m == spec_meta(e.node)),
                Err(err) => err == FsError::NotFound && (spec_resolved(
                    self.view(),
                    pv(path@),
                    follow_last,
                ) is None || (spec_resolved(self.view(), pv(path@), follow_last) matches Some(p)
                    && spec_find(self.view(), p) is None)),
            },
    {
        let rp = match self.resolve(path, follow_last) {
            Ok(rp) => rp,
            Err(e) => { return Err(e) },
        };
        match self.find(&rp) {
            Some(i) => {
                let m = match &self.entries[i].node {
                    Node::Dir { mode, mtime } => Metadata {
                        kind: NodeKind::Dir,
                        mode: *mode,
                        mtime: *mtime,
                        size: 0,
                    },
                    Node::File { mode, mtime, data } => Metadata {
                        kind: NodeKind::File,
                        mode: *mode,
                        mtime: *mtime,
                        size: data.len() as u64,
                    },
                    Node::Symlink { .. } => Metadata {
                        kind: NodeKind::Symlink,
                        mode: 0o777,
                        mtime: 0,
                        size: 0,
                    },
                };
                proof {
                    assert(self.view()[i as int].node == nv(self.entries@[i as int].node));
                }
                Ok(m)
            },
            Option::None => Err(FsError::NotFound),
        }
    }

    /// Stat following symlinks, as `open` would see the file.
    pub fn metadata(&self, path: &Vec<String>) -> (r: Result<Metadata, FsError>)
        ensures
            match r {
                Ok(m) => (spec_resolved(self.view(), pv(path@), true) matches Some(p) && spec_find(
                    self.view(),
                    p,
                ) matches Some(e) && m == spec_meta(e.node)),
                Err(err) => err == FsError::NotFound && (spec_resolved(
                    self.view(),
                    pv(path@),
                    true,
                ) is None || (spec_resolved(self.view(), pv(path@), true) matches Some(p)
                    && spec_find(self.view(), p) is None)),
            },
    {
        self.stat(path, true)
    }

    /// Stat of the name itself: a symlink is reported as a symlink.
    pub fn symlink_metadata(&self, path: &Vec<String>) -> (r: Result<Metadata, FsError>)
        ensures
            match r {
                Ok(m) => (spec_resolved(self.view(), pv(path@), false) matches Some(p) && spec_find(
                    self.view(),
                    p,
                ) matches Some(e) && m == spec_meta(e.node)),
                Err(err) => err == FsError::NotFound && (spec_resolved(
                    self.view(),
                    pv(path@),
                    false,
                ) is None || (spec_resolved(self.view(), pv(path@), false) matches Some(p)
                    && spec_find(self.view(), p) is None)),
            },
    {
        self.stat(path, false)
    }

    /// Opens a file for reading and returns its contents.
    pub fn read(&self, path: &Vec<String>) -> (r: Result<Vec<u8>, FsError>)
        ensures
            match r {
                Ok(d) => (spec_resolved(self.view(), pv(path@), true) matches Some(p) && spec_find(
                    self.view(),
                    p,
                ) matches Some(e) && e.node matches NodeV::File { data, .. } && d@ == data),
                Err(err) => err == FsError::NotFound && (spec_resolved(
                    self.view(),
                    pv(path@),
                    true,
                ) is None || (spec_resolved(self.view(), pv(path@), true) matches Some(p)
                    && !(spec_find(self.view(), p) matches Some(e) && e.node is File))),
            },
    {
        let rp = match self.resolve(path, true) {
            Ok(rp) => rp,
            Err(e) => { return Err(e) },
        };
        match self.find(&rp) {
            Some(i) => {
                match &self.entries[i].node {
                    Node::File { data, .. } => {
                        proof {
                            assert(self.view()[i as int].node == nv(self.entries@[i as int].node));
                        }
                        Ok(clone_bytes(data))
                    },
                    _ => Err(FsError::NotFound),
                }
            },
            Option::None => Err(FsError::NotFound),
        }
    }

    /// Reads a symlink's stored target without dereferencing it.
    pub fn read_link_contents(&self, path: &Vec<String>) -> (r: Result<LinkTarget, FsError>)
        ensures
            match r {
                Ok(l) => (spec_resolved(self.view(), pv(path@), false) matches Some(p) && spec_find(
                    self.view(),
                    p,
                ) matches Some(e) && e.node matches NodeV::Symlink { target_abs, target }
                    && l.absolute == target_abs && pv(l.components@) == target),
                Err(err) => err == FsError::NotFound && (spec_resolved(
                    self.view(),
                    pv(path@),
                    false,
                ) is None || (spec_resolved(self.view(), pv(path@), false) matches Some(p)
                    && !(spec_find(self.view(), p) matches Some(e) && e.node is Symlink))),
            },
    {
        let rp = match self.resolve(path, false) {
            Ok(rp) => rp,
            Err(e) => { return Err(e) },
        };
        match self.find(&rp) {
            Some(i) => {
                match &self.entries[i].node {
                    Node::Symlink { target_abs, target } => {
                        proof {
                            assert(self.view()[i as int].node == nv(self.entries@[i as int].node));
                        }
                        Ok(LinkTarget { absolute: *target_abs, components: clone_path(target) })
                    },
                    _ => Err(FsError::NotFound),
                }
            },
            Option::None => Err(FsError::NotFound),
        }
    }

    /// The resolved form of a path, as seen from the base; fails unless the
    /// path resolves to an existing node.
    pub fn canonicalize(&self, path: &Vec<String>) -> (r: Result<Vec<String>, FsError>)
        ensures
            match r {
                Ok(p) => spec_resolved(self.view(), pv(path@), true) == Some(pv(p@)) && spec_find(
                    self.view(),
                    pv(p@),
                ) is Some,
                Err(err) => err == FsError::NotFound && (spec_resolved(
                    self.view(),
                    pv(path@),
                    true,
                ) is None || (spec_resolved(self.view(), pv(path@), true) matches Some(p)
                    && spec_find(self.view(), p) is None)),
            },
    {
        let rp = match self.resolve(path, true) {
            Ok(rp) => rp,
            Err(e) => { return Err(e) },
        };
        match self.find(&rp) {
            Some(_) => Ok(rp),
            Option::None => Err(FsError::NotFound),
        }
    }

    /// Lists the names immediately under a directory (or under the base,
    /// for the empty path), in stored order.
    pub fn read_dir(&self, path: &Vec<String>) -> (r: Result<Vec<String>, FsError>)
        ensures
            match r {
                Ok(names) => ({
                    &&& spec_resolved(self.view(), pv(path@), true) matches Some(p)
                    &&& (p.len() == 0 || (spec_find(self.view(), p) matches Some(e) && e.node
                        is Dir))
                    &&& pv(names@) == spec_children(self.view(), spec_resolved(
                        self.view(),
                        pv(path@),
                        true,
                    )->Some_0)
                }),
                Err(err) => err == FsError::NotFound && (spec_resolved(
                    self.view(),
                    pv(path@),
                    true,
                ) is None || (spec_resolved(self.view(), pv(path@), true) matches Some(p)
                    && p.len() > 0 && !(spec_find(self.view(), p) matches Some(e) && e.node
                    is Dir))),
            },
    {
        let rp = match self.resolve(path, true) {
            Ok(rp) => rp,
            Err(_) => { return Err(FsError::NotFound) },
        };
        if rp.len() > 0 {
            match self.find(&rp) {
                Some(i) => {
                    proof {
                        assert(self.view()[i as int].node == nv(self.entries@[i as int].node));
                    }
                    match &self.entries[i].node {
                        Node::Dir { .. } => {},
                        _ => { return Err(FsError::NotFound) },
                    }
                },
                Option::None => { return Err(FsError::NotFound) },
            }
        }
        let ghost s = self.view();
        let ghost rpv = pv(rp@);
        let mut names: Vec<String> = Vec::new();
        let mut j: usize = 0;
        proof {
            reveal(spec_children);
            assert(s.subrange(0, 0) =~= Seq::<EntryV>::empty());
            assert(pv(names@) =~= spec_children(s.subrange(0, 0), rpv));
        }
        while j < self.entries.len()
            invariant
                0 <= j <= self.entries@.len(),
                s == self.view(),
                rpv == pv(rp@),
                s.len() == self.entries@.len(),
                pv(names@) == spec_children(s.subrange(0, j as int), rpv),
            decreases self.entries@.len() - j,
        {
            proof {
                reveal(spec_children);
                assert(s[j as int].path == pv(self.entries@[j as int].path@));
                assert(s.subrange(0, j + 1).drop_last() =~= s.subrange(0, j as int));
                assert(s.subrange(0, j + 1).last() == s[j as int]);
            }
            if is_immediate_child(&self.entries[j].path, &rp) {
                let ghost before = pv(names@);
                let name = self.entries[j].path[self.entries[j].path.len() - 1].clone();
                names.push(name);
                proof {
                    reveal(spec_children);
                    assert(pv(names@) =~= before + seq![s[j as int].path.last()]);
                }
            } else {
                proof {
                    reveal(spec_children);
                    assert(pv(names@) + Seq::<Seq<char>>::empty() =~= pv(names@));
                }
            }
            j += 1;
        }
        proof {
            assert(s.subrange(0, s.len() as int) =~= s);
        }
        Ok(names)
    }

    /// A copy of the entry at one walk position: its path and node.
    pub fn entry_parts(&self, i: usize) -> (r: (Vec<String>, Node))
        requires
            i < self.view().len(),
        ensures
            pv(r.0@) == self.view()[i as int].path,
            nv(r.1) == self.view()[i as int].node,
    {
        proof {
            assert(self.view()[i as int].path == pv(self.entries@[i as int].path@));
            assert(self.view()[i as int].node == nv(self.entries@[i as int].node));
        }
        let e = &self.entries[i];
        let path = clone_path(&e.path);
        let node = match &e.node {
            Node::Dir { mode, mtime } => Node::Dir { mode: *mode, mtime: *mtime },
            Node::File { mode, mtime, data } => Node::File {
                mode: *mode,
                mtime: *mtime,
                data: clone_bytes(data),
            },
            Node::Symlink { target_abs, target } => Node::Symlink {
                target_abs: *target_abs,
                target: clone_path(target),
            },
        };
        (path, node)
    }

    /// Every entry, parents before children: its directory flag and path.
    pub fn walk(&self) -> (r: Vec<(bool, Vec<String>)>)
        ensures
            r@.len() == self.view().len(),
            forall|i: int|
                0 <= i < r@.len() ==> (#[trigger] r@[i]).0 == (self.view()[i].node is Dir) && pv(
                    r@[i].1@,
                ) == self.view()[i].path,
    {
        let mut r: Vec<(bool, Vec<String>)> = Vec::new();
        let mut i: usize = 0;
        while i < self.entries.len()
            invariant
                0 <= i <= self.entries@.len(),
                self.view().len() == self.entries@.len(),
                r@.len() == i,
                forall|j: int|
                    0 <= j < i ==> (#[trigger] r@[j]).0 == (self.view()[j].node is Dir) && pv(
                        r@[j].1@,
                    ) == self.view()[j].path,
            decreases self.entries@.len() - i,
        {
            let is_dir = match &self.entries[i].node {
                Node::Dir { .. } => true,
                _ => false,
            };
            proof {
                assert(self.view()[i as int].node == nv(self.entries@[i as int].node));
                assert(self.view()[i as int].path == pv(self.entries@[i as int].path@));
            }
            r.push((is_dir, clone_path(&self.entries[i].path)));
            i += 1;
        }
        r
    }
}

/// Bytes already stored at a path, counted against the quota.
pub open spec fn old_file_size(s: Seq<EntryV>, p: Seq<Seq<char>>) -> nat {
    match spec_find(s, p) {
        Some(e) => node_size(e.node),
        Option::None => 0,
    }
}

/// Where a `create` would write: the resolved path, provided it is not the
/// base itself and not already a directory or a symlink.
pub open spec fn create_target(s: Seq<EntryV>, path: Seq<Seq<char>>) -> Option<Seq<Seq<char>>> {
    match spec_resolved(s, path, true) {
        Some(rp) => if rp.len() >= 1 && (spec_find(s, rp) is None || spec_find(s, rp)->Some_0.node
            is File) {
            Some(rp)
        } else {
            Option::None
        },
        Option::None => Option::None,
    }
}

impl ConfinedFs {
    /// Creates or overwrites a regular file with the given contents, mode
    /// and modification time. The path is resolved symlink-safely; a write
    /// to an ignored path fails with `Ignored`; a write that would push the
    /// tracked usage past the quota fails with `QuotaExceeded` and changes
    /// nothing.
    pub fn create(&mut self, path: &Vec<String>, data: Vec<u8>, mode: u32, mtime: u64) -> (r:
        Result<(), FsError>)
        requires
            old(self).wf(),
        ensures
            final(self).wf(),
            final(self).spec_limit() == old(self).spec_limit(),
            final(self).rules_view() == old(self).rules_view(),
            match r {
                Ok(_) => ({
                    &&& create_target(old(self).view(), pv(path@)) matches Some(rp)
                    &&& !spec_ignore_match(old(self).rules_view(), spec_join(rp), false)
                    &&& old(self).spec_usage() - old_file_size(old(self).view(), rp) + data@.len()
                        <= old(self).effective_limit()
                    &&& final(self).spec_usage() == old(self).spec_usage() - old_file_size(
                        old(self).view(),
                        rp,
                    ) + data@.len()
                    &&& spec_find(final(self).view(), rp) == Some(
                        EntryV { path: rp, node: NodeV::File { mode, mtime, data: data@ } },
                    )
                    &&& forall|q: Seq<Seq<char>>|
                        q != rp ==> spec_find(final(self).view(), q) == spec_find(
                            old(self).view(),
                            q,
                        )
                }),
                Err(err) => *final(self) == *old(self) && match err {
                    FsError::NotFound => create_target(old(self).view(), pv(path@)) is None,
                    FsError::Ignored => (create_target(old(self).view(), pv(path@)) matches Some(rp)
                        && spec_ignore_match(old(self).rules_view(), spec_join(rp), false)),
                    FsError::QuotaExceeded => (create_target(old(self).view(), pv(path@)) matches
                        Some(rp) && !spec_ignore_match(old(self).rules_view(), spec_join(rp), false)
                        && old(self).spec_usage() - old_file_size(old(self).view(), rp)
                        + data@.len() > old(self).effective_limit()),
                },
            },
    {
        let ghost oldv = self.view();
        let rp = match self.resolve(path, true) {
            Ok(rp) => rp,
            Err(_) => { return Err(FsError::NotFound) },
        };
        proof {
            assert(prefixes_are_dirs(oldv, Seq::empty()));
            lemma_resolve_confined(oldv, Seq::empty(), pv(path@), 40, true);
        }
        if rp.len() == 0 {
            return Err(FsError::NotFound);
        }
        let found = self.find(&rp);
        let old_size: usize = match found {
            Some(i) => {
                proof {
                    assert(self.view()[i as int].node == nv(self.entries@[i as int].node));
                }
                match &self.entries[i].node {
                    Node::Dir { .. } => { return Err(FsError::NotFound) },
                    Node::Symlink { .. } => { return Err(FsError::NotFound) },
                    Node::File { data: d, .. } => d.len(),
                }
            },
            Option::None => 0,
        };
        if self.is_ignored(&rp, false) {
            return Err(FsError::Ignored);
        }
        proof {
            lemma_find_size(oldv, pv(rp@));
        }
        let wide: u128 = (self.usage - old_size as u64) as u128 + data.len() as u128;
        let eff: u64 = if self.limit == 0 {
            u64::MAX
        } else {
            self.limit
        };
        if wide > eff as u128 {
            return Err(FsError::QuotaExceeded);
        }
        let new_usage: u64 = (self.usage - old_size as u64) + data.len() as u64;
        let ghost rpv = pv(rp@);
        let ghost new_entry = EntryV { path: rpv, node: NodeV::File { mode, mtime, data: data@ } };
        match found {
            Some(i) => {
                self.entries.set(i, FsEntry { path: rp, node: Node::File { mode, mtime, data } });
                self.usage = new_usage;
                proof {
                    assert(self.view() =~= oldv.update(i as int, new_entry));
                    lemma_total_update(oldv, i as int, new_entry);
                    assert forall|q: Seq<Seq<char>>| q != rpv implies spec_find(self.view(), q)
                        == spec_find(oldv, q) by {
                        lemma_find_update(oldv, i as int, new_entry, q);
                    };
                    lemma_find_update(oldv, i as int, new_entry, rpv);
                    assert(paths_clean(self.view())) by {
                        assert(forall|j: int|
                            0 <= j < self.view().len() ==> (#[trigger] self.view()[j]).path
                                == oldv[j].path);
                    };
                    assert(unique_paths(self.view())) by {
                        assert(forall|j: int|
                            0 <= j < self.view().len() ==> (#[trigger] self.view()[j]).path
                                == oldv[j].path);
                    };
                    assert forall|k: int|
                        0 <= k < self.view().len() && (#[trigger] self.view()[k].path).len()
                            > 1 implies exists|j: int|
                        0 <= j < k && (#[trigger] self.view()[j].path) == self.view(
                        )[k].path.drop_last() && self.view()[j].node is Dir by {
                        assert(self.view()[k].path == oldv[k].path);
                        let j = choose|j: int|
                            0 <= j < k && (#[trigger] oldv[j].path) == oldv[k].path.drop_last()
                                && oldv[j].node is Dir;
                        assert(j != i as int);
                        assert(self.view()[j].path == oldv[j].path && self.view()[j].node == oldv[j].node);
                    };
                }
                Ok(())
            },
            Option::None => {
                self.entries.push(FsEntry { path: rp, node: Node::File { mode, mtime, data } });
                self.usage = new_usage;
                proof {
                    assert(self.view() =~= oldv.push(new_entry));
                    lemma_total_push(oldv, new_entry);
                    assert forall|q: Seq<Seq<char>>| q != rpv implies spec_find(self.view(), q)
                        == spec_find(oldv, q) by {
                        lemma_find_push(oldv, new_entry, q);
                    };
                    lemma_find_push(oldv, new_entry, rpv);
                    lemma_find_none(oldv, rpv);
                    let ghost n = oldv.len() as int;
                    assert(paths_clean(self.view())) by {
                        assert(forall|j: int| 0 <= j < n ==> self.view()[j] == oldv[j]);
                        assert(self.view()[n].path == rpv);
                    };
                    assert(unique_paths(self.view())) by {
                        assert(forall|j: int| 0 <= j < n ==> self.view()[j] == oldv[j]);
                        assert(forall|j: int| 0 <= j < n ==> (#[trigger] oldv[j].path) != rpv);
                        assert(self.view()[n].path == rpv);
                    };
                    assert forall|k: int|
                        0 <= k < self.view().len() && (#[trigger] self.view()[k].path).len()
                            > 1 implies exists|j: int|
                        0 <= j < k && (#[trigger] self.view()[j].path) == self.view(
                        )[k].path.drop_last() && self.view()[j].node is Dir by {
                        if k < n {
                            assert(self.view()[k] == oldv[k]);
                            let j = choose|j: int|
                                0 <= j < k && (#[trigger] oldv[j].path) == oldv[k].path.drop_last()
                                    && oldv[j].node is Dir;
                            assert(self.view()[j] == oldv[j]);
                        } else {
                            assert(self.view()[k].path == rpv);
                            assert(parent_ok(oldv, rpv));
                            assert(spec_find(oldv, rpv.drop_last()) is Some);
                            lemma_find_some_index(oldv, rpv.drop_last());
                            let j = choose|j: int|
                                0 <= j < oldv.len() && #[trigger] oldv[j] == spec_find(
                                    oldv,
                                    rpv.drop_last(),
                                )->Some_0 && oldv[j].path == rpv.drop_last();
                            assert(self.view()[j] == oldv[j]);
                        }
                    };
                }
                Ok(())
            },
        }
    }
}

/// Where a directory entry lands: the resolved path, provided it is not
/// the base and not occupied by a file or a symlink.
pub open spec fn dir_target(s: Seq<EntryV>, path: Seq<Seq<char>>) -> Option<Seq<Seq<char>>> {
    match spec_resolved(s, path, true) {
        Some(rp) => if rp.len() >= 1 && (spec_find(s, rp) is None || spec_find(s, rp)->Some_0.node
            is Dir) {
            Some(rp)
        } else {
            Option::None
        },
        Option::None => Option::None,
    }
}

/// Where a new symlink lands: the resolved path, provided nothing is there.
pub open spec fn link_target_path(s: Seq<EntryV>, path: Seq<Seq<char>>) -> Option<Seq<Seq<char>>> {
    match spec_resolved(s, path, false) {
        Some(rp) => if rp.len() >= 1 && spec_find(s, rp) is None {
            Some(rp)
        } else {
            Option::None
        },
        Option::None => Option::None,
    }
}

impl ConfinedFs {
    /// Creates a directory, or refreshes the mode and mtime of an existing
    /// one. The parent must already exist; archive extraction emits parents
    /// before children, so it never needs more.
    pub fn put_dir(&mut self, path: &Vec<String>, mode: u32, mtime: u64) -> (r: Result<
        (),
        FsError,
    >)
        requires
            old(self).wf(),
        ensures
            final(self).wf(),
            final(self).spec_limit() == old(self).spec_limit(),
            final(self).rules_view() == old(self).rules_view(),
            final(self).spec_usage() == old(self).spec_usage(),
            match r {
                Ok(_) => ({
                    &&& dir_target(old(self).view(), pv(path@)) matches Some(rp)
                    &&& spec_find(final(self).view(), rp) == Some(
                        EntryV { path: rp, node: NodeV::Dir { mode, mtime } },
                    )
                    &&& forall|q: Seq<Seq<char>>|
                        q != rp ==> spec_find(final(self).view(), q) == spec_find(
                            old(self).view(),
                            q,
                        )
                }),
                Err(err) => *final(self) == *old(self) && err == FsError::NotFound && dir_target(
                    old(self).view(),
                    pv(path@),
                ) is None,
            },
    {
        let ghost oldv = self.view();
        let rp = match self.resolve(path, true) {
            Ok(rp) => rp,
            Err(_) => { return Err(FsError::NotFound) },
        };
        proof {
            assert(prefixes_are_dirs(oldv, Seq::empty()));
            lemma_resolve_confined(oldv, Seq::empty(), pv(path@), 40, true);
        }
        if rp.len() == 0 {
            return Err(FsError::NotFound);
        }
        let found = self.find(&rp);
        if let Some(i) = found {
            proof {
                assert(self.view()[i as int].node == nv(self.entries@[i as int].node));
            }
            match &self.entries[i].node {
                Node::Dir { .. } => {},
                _ => { return Err(FsError::NotFound) },
            }
        }
        let ghost rpv = pv(rp@);
        let ghost new_entry = EntryV { path: rpv, node: NodeV::Dir { mode, mtime } };
        match found {
            Some(i) => {
                self.entries.set(i, FsEntry { path: rp, node: Node::Dir { mode, mtime } });
                proof {
                    assert(self.view() =~= oldv.update(i as int, new_entry));
                    lemma_total_update(oldv, i as int, new_entry);
                    assert forall|q: Seq<Seq<char>>| q != rpv implies spec_find(self.view(), q)
                        == spec_find(oldv, q) by {
                        lemma_find_update(oldv, i as int, new_entry, q);
                    };
                    lemma_find_update(oldv, i as int, new_entry, rpv);
                    assert(paths_clean(self.view())) by {
                        assert(forall|j: int|
                            0 <= j < self.view().len() ==> (#[trigger] self.view()[j]).path
                                == oldv[j].path);
                    };
                    assert(unique_paths(self.view())) by {
                        assert(forall|j: int|
                            0 <= j < self.view().len() ==> (#[trigger] self.view()[j]).path
                                == oldv[j].path);
                    };
                    assert forall|k: int|
                        0 <= k < self.view().len() && (#[trigger] self.view()[k].path).len()
                            > 1 implies exists|j: int|
                        0 <= j < k && (#[trigger] self.view()[j].path) == self.view(
                        )[k].path.drop_last() && self.view()[j].node is Dir by {
                        assert(self.view()[k].path == oldv[k].path);
                        let j = choose|j: int|
                            0 <= j < k && (#[trigger] oldv[j].path) == oldv[k].path.drop_last()
                                && oldv[j].node is Dir;
                        assert(self.view()[j].path == oldv[j].path);
                        if j == i as int {
                            assert(self.view()[j].node is Dir);
                        } else {
                            assert(self.view()[j].node == oldv[j].node);
                        }
                    };
                }
                Ok(())
            },
            Option::None => {
                self.entries.push(FsEntry { path: rp, node: Node::Dir { mode, mtime } });
                proof {
                    assert(self.view() =~= oldv.push(new_entry));
                    lemma_total_push(oldv, new_entry);
                    assert forall|q: Seq<Seq<char>>| q != rpv implies spec_find(self.view(), q)
                        == spec_find(oldv, q) by {
                        lemma_find_push(oldv, new_entry, q);
                    };
                    lemma_find_push(oldv, new_entry, rpv);
                    lemma_find_none(oldv, rpv);
                    let ghost n = oldv.len() as int;
                    assert(paths_clean(self.view())) by {
                        assert(forall|j: int| 0 <= j < n ==> self.view()[j] == oldv[j]);
                        assert(self.view()[n].path == rpv);
                    };
                    assert(unique_paths(self.view())) by {
                        assert(forall|j: int| 0 <= j < n ==> self.view()[j] == oldv[j]);
                        assert(forall|j: int| 0 <= j < n ==> (#[trigger] oldv[j].path) != rpv);
                        assert(self.view()[n].path == rpv);
                    };
                    assert forall|k: int|
                        0 <= k < self.view().len() && (#[trigger] self.view()[k].path).len()
                            > 1 implies exists|j: int|
                        0 <= j < k && (#[trigger] self.view()[j].path) == self.view(
                        )[k].path.drop_last() && self.view()[j].node is Dir by {
                        if k < n {
                            assert(self.view()[k] == oldv[k]);
                            let j = choose|j: int|
                                0 <= j < k && (#[trigger] oldv[j].path) == oldv[k].path.drop_last()
                                    && oldv[j].node is Dir;
                            assert(self.view()[j] == oldv[j]);
                        } else {
                            assert(self.view()[k].path == rpv);
                            assert(parent_ok(oldv, rpv));
                            lemma_find_some_index(oldv, rpv.drop_last());
                            let j = choose|j: int|
                                0 <= j < oldv.len() && #[trigger] oldv[j] == spec_find(
                                    oldv,
                                    rpv.drop_last(),
                                )->Some_0 && oldv[j].path == rpv.drop_last();
                            assert(self.view()[j] == oldv[j]);
                        }
                    };
                }
                Ok(())
            },
        }
    }

    /// Creates a symbolic link storing `target` verbatim. Fails when the
    /// name is already taken; callers treat that as non-fatal, as the
    /// archive extractors do.
    pub fn symlink(&mut self, path: &Vec<String>, target_abs: bool, target: Vec<String>) -> (r:
        Result<(), FsError>)
        requires
            old(self).wf(),
        ensures
            final(self).wf(),
            final(self).spec_limit() == old(self).spec_limit(),
            final(self).rules_view() == old(self).rules_view(),
            final(self).spec_usage() == old(self).spec_usage(),
            match r {
                Ok(_) => ({
                    &&& link_target_path(old(self).view(), pv(path@)) matches Some(rp)
                    &&& spec_find(final(self).view(), rp) == Some(
                        EntryV {
                            path: rp,
                            node: NodeV::Symlink { target_abs, target: pv(target@) },
                        },
                    )
                    &&& forall|q: Seq<Seq<char>>|
                        q != rp ==> spec_find(final(self).view(), q) == spec_find(
                            old(self).view(),
                            q,
                        )
                }),
                Err(err) => *final(self) == *old(self) && err == FsError::NotFound
                    && link_target_path(old(self).view(), pv(path@)) is None,
            },
    {
        let ghost oldv = self.view();
        let rp = match self.resolve(path, false) {
            Ok(rp) => rp,
            Err(_) => { return Err(FsError::NotFound) },
        };
        proof {
            assert(prefixes_are_dirs(oldv, Seq::empty()));
            lemma_resolve_confined(oldv, Seq::empty(), pv(path@), 40, false);
        }
        if rp.len() == 0 {
            return Err(FsError::NotFound);
        }
        if let Some(_) = self.find(&rp) {
            return Err(FsError::NotFound);
        }
        let ghost rpv = pv(rp@);
        let ghost new_entry = EntryV {
            path: rpv,
            node: NodeV::Symlink { target_abs, target: pv(target@) },
        };
        self.entries.push(FsEntry { path: rp, node: Node::Symlink { target_abs, target } });
        proof {
            assert(self.view() =~= oldv.push(new_entry));
            lemma_total_push(oldv, new_entry);
            assert forall|q: Seq<Seq<char>>| q != rpv implies spec_find(self.view(), q)
                == spec_find(oldv, q) by {
                lemma_find_push(oldv, new_entry, q);
            };
            lemma_find_push(oldv, new_entry, rpv);
            lemma_find_none(oldv, rpv);
            let ghost n = oldv.len() as int;
            assert(paths_clean(self.view())) by {
                assert(forall|j: int| 0 <= j < n ==> self.view()[j] == oldv[j]);
                assert(self.view()[n].path == rpv);
            };
            assert(unique_paths(self.view())) by {
                assert(forall|j: int| 0 <= j < n ==> self.view()[j] == oldv[j]);
                assert(forall|j: int| 0 <= j < n ==> (#[trigger] oldv[j].path) != rpv);
                assert(self.view()[n].path == rpv);
            };
            assert forall|k: int|
                0 <= k < self.view().len() && (#[trigger] self.view()[k].path).len()
                    > 1 implies exists|j: int|
                0 <= j < k && (#[trigger] self.view()[j].path) == self.view()[k].path.drop_last()
                    && self.view()[j].node is Dir by {
                if k < n {
                    assert(self.view()[k] == oldv[k]);
                    let j = choose|j: int|
                        0 <= j < k && (#[trigger] oldv[j].path) == oldv[k].path.drop_last()
                            && oldv[j].node is Dir;
                    assert(self.view()[j] == oldv[j]);
                } else {
                    assert(self.view()[k].path == rpv);
                    assert(parent_ok(oldv, rpv));
                    lemma_find_some_index(oldv, rpv.drop_last());
                    let j = choose|j: int|
                        0 <= j < oldv.len() && #[trigger] oldv[j] == spec_find(
                            oldv,
                            rpv.drop_last(),
                        )->Some_0 && oldv[j].path == rpv.drop_last();
                    assert(self.view()[j] == oldv[j]);
                }
            };
        }
        Ok(())
    }

    /// Sets the permission bits of the node the path resolves to.
    pub fn set_permissions(&mut self, path: &Vec<String>, mode: u32) -> (r: Result<(), FsError>)
        requires
            old(self).wf(),
        ensures
            final(self).wf(),
            final(self).spec_limit() == old(self).spec_limit(),
            final(self).rules_view() == old(self).rules_view(),
            final(self).spec_usage() == old(self).spec_usage(),
            match r {
                Ok(_) => ({
                    &&& spec_resolved(old(self).view(), pv(path@), true) matches Some(rp)
                    &&& spec_find(old(self).view(), rp) matches Some(e)
                    &&& spec_find(final(self).view(), rp) == Some(
                        EntryV { path: rp, node: with_mode(e.node, mode) },
                    )
                    &&& forall|q: Seq<Seq<char>>|
                        q != rp ==> spec_find(final(self).view(), q) == spec_find(
                            old(self).view(),
                            q,
                        )
                }),
                Err(err) => *final(self) == *old(self) && err == FsError::NotFound && (
                spec_resolved(old(self).view(), pv(path@), true) is None || (spec_resolved(
                    old(self).view(),
                    pv(path@),
                    true,
                ) matches Some(rp) && (spec_find(old(self).view(), rp) is None || spec_find(
                    old(self).view(),
                    rp,
                )->Some_0.node is Symlink))),
            },
    {
        let ghost oldv = self.view();
        let rp = match self.resolve(path, true) {
            Ok(rp) => rp,
            Err(_) => { return Err(FsError::NotFound) },
        };
        let found = self.find(&rp);
        let i = match found {
            Some(i) => i,
            Option::None => { return Err(FsError::NotFound) },
        };
        proof {
            assert(self.view()[i as int].node == nv(self.entries@[i as int].node));
        }
        let new_node = match &self.entries[i].node {
            Node::Dir { mtime, .. } => Node::Dir { mode, mtime: *mtime },
            Node::File { mtime, data, .. } => Node::File {
                mode,
                mtime: *mtime,
                data: clone_bytes(data),
            },
            Node::Symlink { .. } => { return Err(FsError::NotFound) },
        };
        let ghost rpv = pv(rp@);
        let ghost new_entry = EntryV { path: rpv, node: nv(new_node) };
        proof {
            assert(nv(new_node) == with_mode(oldv[i as int].node, mode));
        }
        self.entries.set(i, FsEntry { path: rp, node: new_node });
        proof {
            assert(self.view() =~= oldv.update(i as int, new_entry));
            lemma_total_update(oldv, i as int, new_entry);
            assert(node_size(new_entry.node) == node_size(oldv[i as int].node));
            assert forall|q: Seq<Seq<char>>| q != rpv implies spec_find(self.view(), q)
                == spec_find(oldv, q) by {
                lemma_find_update(oldv, i as int, new_entry, q);
            };
            lemma_find_update(oldv, i as int, new_entry, rpv);
            assert(paths_clean(self.view())) by {
                assert(forall|j: int|
                    0 <= j < self.view().len() ==> (#[trigger] self.view()[j]).path
                        == oldv[j].path);
            };
            assert(unique_paths(self.view())) by {
                assert(forall|j: int|
                    0 <= j < self.view().len() ==> (#[trigger] self.view()[j]).path
                        == oldv[j].path);
            };
            assert forall|k: int|
                0 <= k < self.view().len() && (#[trigger] self.view()[k].path).len()
                    > 1 implies exists|j: int|
                0 <= j < k && (#[trigger] self.view()[j].path) == self.view()[k].path.drop_last()
                    && self.view()[j].node is Dir by {
                assert(self.view()[k].path == oldv[k].path);
                let j = choose|j: int|
                    0 <= j < k && (#[trigger] oldv[j].path) == oldv[k].path.drop_last()
                        && oldv[j].node is Dir;
                assert(self.view()[j].path == oldv[j].path);
                if j == i as int {
                    assert(self.view()[j].node is Dir);
                } else {
                    assert(self.view()[j].node == oldv[j].node);
                }
            };
        }
        Ok(())
    }
}

pub proof fn lemma_total_remove(s: Seq<EntryV>, i: int)
    requires
        0 <= i < s.len(),
    ensures
        total_bytes(s.remove(i)) + node_size(s[i].node) == total_bytes(s),
    decreases s.len(),
{
    if i == s.len() - 1 {
        assert(s.remove(i) =~= s.drop_last());
    } else {
        assert(s.remove(i).drop_last() =~= s.drop_last().remove(i));
        assert(s.remove(i).last() == s.last());
        lemma_total_remove(s.drop_last(), i);
    }
}

/// Removing the entry at `i` changes exactly its own path's lookup.
pub proof fn lemma_find_remove(s: Seq<EntryV>, i: int, q: Seq<Seq<char>>)
    requires
        0 <= i < s.len(),
        unique_paths(s),
    ensures
        spec_find(s.remove(i), q) == if q == s[i].path {
            Option::None
        } else {
            spec_find(s, q)
        },
    decreases s.len(),
{
    let u = s.remove(i);
    let stail = s.subrange(1, s.len() as int);
    assert(unique_paths(stail)) by {
        assert(forall|a: int, b: int|
            0 <= a < b < stail.len() ==> stail[a] == s[a + 1] && stail[b] == s[b + 1]);
    };
    if i == 0 {
        assert(u =~= stail);
        if q == s[0].path {
            assert(forall|j: int| 0 <= j < stail.len() ==> stail[j] == s[j + 1]);
            assert(forall|j: int| 1 <= j < s.len() ==> (#[trigger] s[j]).path != s[0].path);
            if spec_find(stail, q) is Some {
                lemma_find_some_index(stail, q);
            }
        }
    } else {
        assert(u[0] == s[0]);
        assert(u.subrange(1, u.len() as int) =~= stail.remove(i - 1));
        assert(stail[i - 1] == s[i]);
        lemma_find_remove(stail, i - 1, q);
        if s[0].path == q {
            assert(s[0].path != s[i].path);
        }
    }
}

impl ConfinedFs {
    /// Does any entry sit immediately under this path?
    fn has_child(&self, p: &Vec<String>) -> (r: bool)
        ensures
            r == has_child_spec(self.view(), pv(p@)),
    {
        let mut j: usize = 0;
        while j < self.entries.len()
            invariant
                0 <= j <= self.entries@.len(),
                self.view().len() == self.entries@.len(),
                forall|k: int|
                    0 <= k < j ==> !((#[trigger] self.view()[k].path).len() == pv(p@).len() + 1
                        && self.view()[k].path.drop_last() == pv(p@)),
            decreases self.entries@.len() - j,
        {
            proof {
                assert(self.view()[j as int].path == pv(self.entries@[j as int].path@));
            }
            if is_immediate_child(&self.entries[j].path, p) {
                return true;
            }
            j += 1;
        }
        false
    }

    /// Deletes a file, a symlink, or an empty directory, releasing its
    /// bytes from the usage counter. A directory that still has entries
    /// cannot go.
    pub fn remove(&mut self, path: &Vec<String>) -> (r: Result<(), FsError>)
        requires
            old(self).wf(),
        ensures
            final(self).wf(),
            final(self).spec_limit() == old(self).spec_limit(),
            final(self).rules_view() == old(self).rules_view(),
            match r {
                Ok(_) => ({
                    &&& spec_resolved(old(self).view(), pv(path@), false) matches Some(rp)
                    &&& spec_find(old(self).view(), rp) matches Some(e)
                    &&& spec_find(final(self).view(), rp) is None
                    &&& final(self).spec_usage() + node_size(e.node) == old(self).spec_usage()
                    &&& forall|q: Seq<Seq<char>>|
                        q != rp ==> spec_find(final(self).view(), q) == spec_find(
                            old(self).view(),
                            q,
                        )
                }),
                Err(err) => *final(self) == *old(self) && err == FsError::NotFound
                    && (spec_resolved(old(self).view(), pv(path@), false) is None || (
                spec_resolved(old(self).view(), pv(path@), false) matches Some(rp) && (spec_find(
                    old(self).view(),
                    rp,
                ) is None || has_child_spec(old(self).view(), rp)))),
            },
    {
        let ghost oldv = self.view();
        let rp = match self.resolve(path, false) {
            Ok(rp) => rp,
            Err(_) => { return Err(FsError::NotFound) },
        };
        let i = match self.find(&rp) {
            Some(i) => i,
            Option::None => { return Err(FsError::NotFound) },
        };
        if self.has_child(&rp) {
            return Err(FsError::NotFound);
        }
        proof {
            assert(self.view()[i as int].node == nv(self.entries@[i as int].node));
            lemma_find_size(oldv, pv(rp@));
        }
        let removed_size: u64 = match &self.entries[i].node {
            Node::File { data, .. } => data.len() as u64,
            _ => 0,
        };
        let ghost rpv = pv(rp@);
        let _ = self.entries.remove(i);
        self.usage = self.usage - removed_size;
        proof {
            assert(self.view() =~= oldv.remove(i as int));
            lemma_total_remove(oldv, i as int);
            assert forall|q: Seq<Seq<char>>| q != rpv implies spec_find(self.view(), q)
                == spec_find(oldv, q) by {
                lemma_find_remove(oldv, i as int, q);
            };
            lemma_find_remove(oldv, i as int, rpv);
            let ghost n = self.view().len() as int;
            assert(paths_clean(self.view())) by {
                assert(forall|m: int|
                    0 <= m < n ==> self.view()[m] == (if m < i as int {
                        oldv[m]
                    } else {
                        oldv[m + 1]
                    }));
            };
            assert(unique_paths(self.view())) by {
                assert(forall|m: int|
                    0 <= m < n ==> self.view()[m] == (if m < i as int {
                        oldv[m]
                    } else {
                        oldv[m + 1]
                    }));
            };
            assert forall|k: int|
                0 <= k < n && (#[trigger] self.view()[k].path).len() > 1 implies exists|j: int|
                0 <= j < k && (#[trigger] self.view()[j].path) == self.view()[k].path.drop_last()
                    && self.view()[j].node is Dir by {
                let ghost ko = if k < i as int {
                    k
                } else {
                    k + 1
                };
                assert(self.view()[k] == oldv[ko]);
                let j = choose|j: int|
                    0 <= j < ko && (#[trigger] oldv[j].path) == oldv[ko].path.drop_last()
                        && oldv[j].node is Dir;
                assert(j != i as int) by {
                    if j == i as int {
                        assert(oldv[ko].path.len() == oldv[i as int].path.len() + 1);
                        assert(oldv[ko].path.drop_last() == rpv);
                    }
                };
                let ghost jn = if j < i as int {
                    j
                } else {
                    j - 1
                };
                assert(self.view()[jn] == oldv[j]);
                assert(jn < k);
            };
        }
        Ok(())
    }

    /// Moves a file, a symlink, or an empty directory to a new name. The
    /// destination must be free; its parent must exist.
    pub fn rename(&mut self, from: &Vec<String>, to: &Vec<String>) -> (r: Result<(), FsError>)
        requires
            old(self).wf(),
        ensures
            final(self).wf(),
            final(self).spec_limit() == old(self).spec_limit(),
            final(self).rules_view() == old(self).rules_view(),
            final(self).spec_usage() == old(self).spec_usage(),
            match r {
                Ok(_) => ({
                    &&& spec_resolved(old(self).view(), pv(from@), false) matches Some(rf)
                    &&& spec_find(old(self).view(), rf) matches Some(e)
                    &&& link_target_path(old(self).view(), pv(to@)) matches Some(rt)
                    &&& rf != rt
                    &&& spec_find(final(self).view(), rf) is None
                    &&& spec_find(final(self).view(), rt) == Some(
                        EntryV { path: rt, node: spec_find(old(self).view(), rf)->Some_0.node },
                    )
                    &&& forall|q: Seq<Seq<char>>|
                        q != rf && q != rt ==> spec_find(final(self).view(), q) == spec_find(
                            old(self).view(),
                            q,
                        )
                }),
                Err(err) => *final(self) == *old(self) && err == FsError::NotFound
                    && (spec_resolved(old(self).view(), pv(from@), false) is None || (
                spec_resolved(old(self).view(), pv(from@), false) matches Some(rf) && (spec_find(
                    old(self).view(),
                    rf,
                ) is None || has_child_spec(old(self).view(), rf) || link_target_path(
                    old(self).view(),
                    pv(to@),
                ) is None || (link_target_path(old(self).view(), pv(to@)) matches Some(rt) && (rf
                    == rt || (rt.len() == rf.len() + 1 && rt.drop_last() == rf)))))),
            },
    {
        let ghost oldv = self.view();
        let rf = match self.resolve(from, false) {
            Ok(rf) => rf,
            Err(_) => { return Err(FsError::NotFound) },
        };
        let i = match self.find(&rf) {
            Some(i) => i,
            Option::None => { return Err(FsError::NotFound) },
        };
        if self.has_child(&rf) {
            return Err(FsError::NotFound);
        }
        let rt = match self.resolve(to, false) {
            Ok(rt) => rt,
            Err(_) => { return Err(FsError::NotFound) },
        };
        proof {
            assert(prefixes_are_dirs(oldv, Seq::empty()));
            lemma_resolve_confined(oldv, Seq::empty(), pv(to@), 40, false);
        }
        if rt.len() == 0 {
            return Err(FsError::NotFound);
        }
        if let Some(_) = self.find(&rt) {
            return Err(FsError::NotFound);
        }
        if path_eq(&rf, &rt) {
            return Err(FsError::NotFound);
        }
        if is_immediate_child(&rt, &rf) {
            return Err(FsError::NotFound);
        }
        proof {
            assert(self.view()[i as int].node == nv(self.entries@[i as int].node));
        }
        let ghost rfv = pv(rf@);
        let ghost rtv = pv(rt@);
        let ghost moved = oldv[i as int].node;
        let entry = self.entries.remove(i);
        let ghost midv = self.view();
        proof {
            assert(midv =~= oldv.remove(i as int));
            lemma_total_remove(oldv, i as int);
            assert forall|q: Seq<Seq<char>>| true implies spec_find(midv, q) == (if q == rfv {
                Option::None
            } else {
                spec_find(oldv, q)
            }) by {
                lemma_find_remove(oldv, i as int, q);
            };
            let ghost n = midv.len() as int;
            assert(paths_clean(midv) && unique_paths(midv)) by {
                assert(forall|m: int|
                    0 <= m < n ==> midv[m] == (if m < i as int {
                        oldv[m]
                    } else {
                        oldv[m + 1]
                    }));
            };
            assert(parents_closed(midv)) by {
                assert forall|k: int|
                    0 <= k < n && (#[trigger] midv[k].path).len() > 1 implies exists|j: int|
                    0 <= j < k && (#[trigger] midv[j].path) == midv[k].path.drop_last()
                        && midv[j].node is Dir by {
                    let ghost ko = if k < i as int {
                        k
                    } else {
                        k + 1
                    };
                    assert(forall|m: int|
                        0 <= m < n ==> midv[m] == (if m < i as int {
                            oldv[m]
                        } else {
                            oldv[m + 1]
                        }));
                    assert(midv[k] == oldv[ko]);
                    let j = choose|j: int|
                        0 <= j < ko && (#[trigger] oldv[j].path) == oldv[ko].path.drop_last()
                            && oldv[j].node is Dir;
                    assert(j != i as int) by {
                        if j == i as int {
                            assert(oldv[ko].path.drop_last() == rfv);
                            assert(oldv[ko].path.len() == rfv.len() + 1);
                        }
                    };
                    let ghost jn = if j < i as int {
                        j
                    } else {
                        j - 1
                    };
                    assert(midv[jn] == oldv[j]);
                };
            };
        }
        let new_node = entry.node;
        let ghost new_entry = EntryV { path: rtv, node: nv(new_node) };
        proof {
            assert(nv(new_node) == moved);
        }
        self.entries.push(FsEntry { path: rt, node: new_node });
        proof {
            assert(self.view() =~= midv.push(new_entry));
            lemma_total_push(midv, new_entry);
            assert forall|q: Seq<Seq<char>>| q != rfv && q != rtv implies spec_find(
                self.view(),
                q,
            ) == spec_find(oldv, q) by {
                lemma_find_push(midv, new_entry, q);
            };
            lemma_find_push(midv, new_entry, rtv);
            lemma_find_push(midv, new_entry, rfv);
            assert(spec_find(midv, rtv) is None);
            assert forall|j: int| 0 <= j < midv.len() implies (#[trigger] midv[j].path)
                != rtv by {
                lemma_find_none(midv, rtv);
            };
            let ghost n = midv.len() as int;
            assert(paths_clean(self.view())) by {
                assert(forall|j: int| 0 <= j < n ==> self.view()[j] == midv[j]);
                assert(self.view()[n].path == rtv);
            };
            assert(unique_paths(self.view())) by {
                assert(forall|j: int| 0 <= j < n ==> self.view()[j] == midv[j]);
                assert(self.view()[n].path == rtv);
            };
            assert forall|k: int|
                0 <= k < self.view().len() && (#[trigger] self.view()[k].path).len()
                    > 1 implies exists|j: int|
                0 <= j < k && (#[trigger] self.view()[j].path) == self.view()[k].path.drop_last()
                    && self.view()[j].node is Dir by {
                if k < n {
                    assert(self.view()[k] == midv[k]);
                    let j = choose|j: int|
                        0 <= j < k && (#[trigger] midv[j].path) == midv[k].path.drop_last()
                            && midv[j].node is Dir;
                    assert(self.view()[j] == midv[j]);
                } else {
                    assert(self.view()[k].path == rtv);
                    assert(parent_ok(oldv, rtv));
                    assert(rtv.drop_last() != rfv) by {
                        if rtv.drop_last() == rfv {
                            assert(rtv.len() == rfv.len() + 1);
                        }
                    };
                    lemma_find_remove(oldv, i as int, rtv.drop_last());
                    lemma_find_some_index(midv, rtv.drop_last());
                    let j = choose|j: int|
                        0 <= j < midv.len() && #[trigger] midv[j] == spec_find(
                            midv,
                            rtv.drop_last(),
                        )->Some_0 && midv[j].path == rtv.drop_last();
                    assert(self.view()[j] == midv[j]);
                }
            };
        }
        Ok(())
    }
}

/// Is `child` exactly one component below `parent`?
pub fn is_immediate_child(child: &Vec<String>, parent: &Vec<String>) -> (r: bool)
    ensures
        r == (pv(child@).len() == pv(parent@).len() + 1 && pv(child@).drop_last() == pv(parent@)),
{
    if child.len() == 0 || child.len() - 1 != parent.len() {
        return false;
    }
    let mut i: usize = 0;
    while i < parent.len()
        invariant
            0 <= i <= parent@.len(),
            child@.len() == parent@.len() + 1,
            forall|m: int| 0 <= m < i ==> pv(child@)[m] == pv(parent@)[m],
        decreases parent@.len() - i,
    {
        if !child[i].eq(&parent[i]) {
            assert(pv(child@).drop_last()[i as int] != pv(parent@)[i as int]);
            return false;
        }
        i += 1;
    }
    proof {
        assert(pv(child@).drop_last() =~= pv(parent@));
    }
    true
}

/// Some entry sits immediately under this path.
pub open spec fn has_child_spec(s: Seq<EntryV>, p: Seq<Seq<char>>) -> bool {
    exists|j: int|
        0 <= j < s.len() && (#[trigger] s[j].path).len() == p.len() + 1 && s[j].path.drop_last()
            == p
}

/// The names immediately under a path, in stored order.
#[verifier::opaque]
pub open spec fn spec_children(s: Seq<EntryV>, p: Seq<Seq<char>>) -> Seq<Seq<char>>
    decreases s.len(),
{
    if s.len() == 0 {
        Seq::empty()
    } else {
        spec_children(s.drop_last(), p) + if s.last().path.len() == p.len() + 1
            && s.last().path.drop_last() == p {
            seq![s.last().path.last()]
        } else {
            Seq::empty()
        }
    }
}

/// Confinement: whatever symlink configuration the tree holds, a path that
/// resolves at all resolves to a clean descendant of the base, whose parent
/// chain exists. Every operation of the engine goes through this
/// resolution, so no operation ever reaches outside the base.
pub proof fn lemma_resolution_stays_confined(
    s: Seq<EntryV>,
    path: Seq<Seq<char>>,
    follow_last: bool,
)
    ensures
        spec_resolved(s, path, follow_last) matches Some(p) ==> clean_path(p) && parent_ok(s, p),
{
    assert(prefixes_are_dirs(s, Seq::empty()));
    lemma_resolve_confined(s, Seq::empty(), path, 40, follow_last);
}

impl ConfinedFs {
    /// Appends one chunk to an existing file, as the engine's writer does
    /// flush by flush: the quota is checked per chunk, so a long write
    /// fails on the first chunk past the limit and keeps what fitted.
    pub fn append(&mut self, path: &Vec<String>, chunk: Vec<u8>) -> (r: Result<(), FsError>)
        requires
            old(self).wf(),
        ensures
            final(self).wf(),
            final(self).spec_limit() == old(self).spec_limit(),
            final(self).rules_view() == old(self).rules_view(),
            match r {
                Ok(_) => ({
                    &&& spec_resolved(old(self).view(), pv(path@), true) matches Some(rp)
                    &&& spec_find(old(self).view(), rp) matches Some(e)
                    &&& e.node matches NodeV::File { mode, mtime, data }
                    &&& !spec_ignore_match(old(self).rules_view(), spec_join(rp), false)
                    &&& old(self).spec_usage() + chunk@.len() <= old(self).effective_limit()
                    &&& final(self).spec_usage() == old(self).spec_usage() + chunk@.len()
                    &&& spec_find(final(self).view(), rp) == Some(
                        EntryV {
                            path: rp,
                            node: NodeV::File {
                                mode: e.node->File_mode,
                                mtime: e.node->File_mtime,
                                data: e.node->File_data + chunk@,
                            },
                        },
                    )
                    &&& forall|q: Seq<Seq<char>>|
                        q != rp ==> spec_find(final(self).view(), q) == spec_find(
                            old(self).view(),
                            q,
                        )
                }),
                Err(err) => *final(self) == *old(self) && match err {
                    FsError::NotFound => (spec_resolved(old(self).view(), pv(path@), true) is None
                        || (spec_resolved(old(self).view(), pv(path@), true) matches Some(rp) && !(
                    spec_find(old(self).view(), rp) matches Some(e) && e.node is File))),
                    FsError::Ignored => (spec_resolved(old(self).view(), pv(path@), true) matches
                        Some(rp) && spec_ignore_match(old(self).rules_view(), spec_join(rp), false)),
                    FsError::QuotaExceeded => old(self).spec_usage() + chunk@.len() > old(
                        self,
                    ).effective_limit(),
                },
            },
    {
        let ghost oldv = self.view();
        let rp = match self.resolve(path, true) {
            Ok(rp) => rp,
            Err(_) => { return Err(FsError::NotFound) },
        };
        let i = match self.find(&rp) {
            Some(i) => i,
            Option::None => { return Err(FsError::NotFound) },
        };
        proof {
            assert(self.view()[i as int].node == nv(self.entries@[i as int].node));
        }
        let (mode, mtime, mut data) = match &self.entries[i].node {
            Node::File { mode, mtime, data } => (*mode, *mtime, clone_bytes(data)),
            _ => { return Err(FsError::NotFound) },
        };
        if self.is_ignored(&rp, false) {
            return Err(FsError::Ignored);
        }
        let eff: u64 = if self.limit == 0 {
            u64::MAX
        } else {
            self.limit
        };
        let wide: u128 = self.usage as u128 + chunk.len() as u128;
        if wide > eff as u128 {
            return Err(FsError::QuotaExceeded);
        }
        let new_usage: u64 = self.usage + chunk.len() as u64;
        let ghost old_data = data@;
        let mut k: usize = 0;
        while k < chunk.len()
            invariant
                0 <= k <= chunk@.len(),
                data@ == old_data + chunk@.subrange(0, k as int),
            decreases chunk@.len() - k,
        {
            data.push(chunk[k]);
            proof {
                assert(old_data + chunk@.subrange(0, k + 1) =~= (old_data + chunk@.subrange(
                    0,
                    k as int,
                )).push(chunk@[k as int]));
            }
            k += 1;
        }
        proof {
            assert(chunk@.subrange(0, chunk@.len() as int) =~= chunk@);
        }
        let ghost rpv = pv(rp@);
        let ghost new_entry = EntryV {
            path: rpv,
            node: NodeV::File { mode, mtime, data: old_data + chunk@ },
        };
        proof {
            lemma_find_size(oldv, rpv);
        }
        self.entries.set(i, FsEntry { path: rp, node: Node::File { mode, mtime, data } });
        self.usage = new_usage;
        proof {
            assert(self.view() =~= oldv.update(i as int, new_entry));
            lemma_total_update(oldv, i as int, new_entry);
            assert(node_size(new_entry.node) == node_size(oldv[i as int].node) + chunk@.len());
            assert forall|q: Seq<Seq<char>>| q != rpv implies spec_find(self.view(), q)
                == spec_find(oldv, q) by {
                lemma_find_update(oldv, i as int, new_entry, q);
            };
            lemma_find_update(oldv, i as int, new_entry, rpv);
            assert(paths_clean(self.view()) && unique_paths(self.view())) by {
                assert(forall|j: int|
                    0 <= j < self.view().len() ==> (#[trigger] self.view()[j]).path
                        == oldv[j].path);
            };
            assert forall|k2: int|
                0 <= k2 < self.view().len() && (#[trigger] self.view()[k2].path).len()
                    > 1 implies exists|j: int|
                0 <= j < k2 && (#[trigger] self.view()[j].path) == self.view()[k2].path.drop_last()
                    && self.view()[j].node is Dir by {
                assert(self.view()[k2].path == oldv[k2].path);
                let j = choose|j: int|
                    0 <= j < k2 && (#[trigger] oldv[j].path) == oldv[k2].path.drop_last()
                        && oldv[j].node is Dir;
                assert(self.view()[j].path == oldv[j].path);
                if j == i as int {
                    assert(self.view()[j].node is Dir);
                } else {
                    assert(self.view()[j].node == oldv[j].node);
                }
            };
        }
        Ok(())
    }
}

/// The same node with its permission bits replaced.
pub open spec fn with_mode(n: NodeV, mode: u32) -> NodeV {
    match n {
        NodeV::Dir { mtime, .. } => NodeV::Dir { mode, mtime },
        NodeV::File { mtime, data, .. } => NodeV::File { mode, mtime, data },
        NodeV::Symlink { target_abs, target } => NodeV::Symlink { target_abs, target },
    }
}

/// A copy of a byte vector.
pub fn clone_bytes(v: &Vec<u8>) -> (r: Vec<u8>)
    ensures
        r@ == v@,
{
    let mut r: Vec<u8> = Vec::new();
    let mut i: usize = 0;
    while i < v.len()
        invariant
            0 <= i <= v@.len(),
            r@ == v@.subrange(0, i as int),
        decreases v@.len() - i,
    {
        r.push(v[i]);
        proof {
            assert(r@ =~= v@.subrange(0, i + 1));
        }
        i += 1;
    }
    proof {
        assert(v@.subrange(0, v@.len() as int) =~= v@);
    }
    r
}

/// Component-wise equality of two paths.
pub fn path_eq(a: &Vec<String>, b: &Vec<String>) -> (r: bool)
    ensures
        r == (pv(a@) == pv(b@)),
{
    if a.len() != b.len() {
        assert(pv(a@).len() != pv(b@).len());
        return false;
    }
    let mut i: usize = 0;
    while i < a.len()
        invariant
            0 <= i <= a@.len(),
            a@.len() == b@.len(),
            forall|j: int| 0 <= j < i ==> pv(a@)[j] == pv(b@)[j],
        decreases a@.len() - i,
    {
        if !a[i].eq(&b[i]) {
            assert(pv(a@)[i as int] != pv(b@)[i as int]);
            return false;
        }
        i += 1;
    }
    proof {
        assert(pv(a@) =~= pv(b@));
    }
    true
}

} // verus!
