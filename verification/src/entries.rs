//! The archive engine's entry model. Creating a tar or zip archive walks
//! the confined filesystem, prunes ignored subtrees, and emits one entry
//! per node; extracting applies entries back through the engine, skipping
//! absolute names, ignored paths and unsupported kinds. The round-trip laws
//! — extraction of a created archive reproduces the tree, filtered by the
//! ignore rules — are stated on these functions and proved below.

use vstd::prelude::*;
use crate::ignore_rules::{pv, spec_join, spec_ignore_match};
use crate::vfs::{
    clean_component, clean_path, clone_bytes, clone_path, create_target, dir_target,
    lemma_find_none, lemma_find_push, link_target_path, parents_closed, paths_clean, spec_find,
    spec_resolve, spec_resolved, unique_paths, ConfinedFs, EntryV, NodeV,
};

verus! {

/// One entry of an archive listing.
pub struct ArchiveEntry {
    /// Mirrors an absolute stored name; such entries are never applied.
    pub absolute: bool,
    pub path: Vec<String>,
    pub kind: EntryKind,
}

pub enum EntryKind {
    Dir { mode: u32, mtime: u64 },
    File { mode: u32, mtime: u64, data: Vec<u8> },
    Symlink { target_abs: bool, target: Vec<String> },
    Other,
}

pub struct ArchiveEntryV {
    pub absolute: bool,
    pub path: Seq<Seq<char>>,
    pub kind: EntryKindV,
}

pub enum EntryKindV {
    Dir { mode: u32, mtime: u64 },
    File { mode: u32, mtime: u64, data: Seq<u8> },
    Symlink { target_abs: bool, target: Seq<Seq<char>> },
    Other,
}

pub open spec fn kv(k: EntryKind) -> EntryKindV {
    match k {
        EntryKind::Dir { mode, mtime } => EntryKindV::Dir { mode, mtime },
        EntryKind::File { mode, mtime, data } => EntryKindV::File { mode, mtime, data: data@ },
        EntryKind::Symlink { target_abs, target } => EntryKindV::Symlink {
            target_abs,
            target: pv(target@),
        },
        EntryKind::Other => EntryKindV::Other,
    }
}

pub open spec fn av(e: ArchiveEntry) -> ArchiveEntryV {
    ArchiveEntryV { absolute: e.absolute, path: pv(e.path@), kind: kv(e.kind) }
}

pub open spec fn plan_view(v: Seq<ArchiveEntry>) -> Seq<ArchiveEntryV> {
    v.map_values(|e: ArchiveEntry| av(e))
}

/// The node an applied entry leaves in the tree.
pub open spec fn node_of_kind(k: EntryKindV) -> NodeV
    recommends
        !(k is Other),
{
    match k {
        EntryKindV::Dir { mode, mtime } => NodeV::Dir { mode, mtime },
        EntryKindV::File { mode, mtime, data } => NodeV::File { mode, mtime, data },
        EntryKindV::Symlink { target_abs, target } => NodeV::Symlink { target_abs, target },
        EntryKindV::Other => NodeV::Dir { mode: 0, mtime: 0 },
    }
}

/// The entry a walked node becomes.
pub open spec fn entry_of_node(e: EntryV) -> ArchiveEntryV {
    ArchiveEntryV {
        absolute: false,
        path: e.path,
        kind: match e.node {
            NodeV::Dir { mode, mtime } => EntryKindV::Dir { mode, mtime },
            NodeV::File { mode, mtime, data } => EntryKindV::File { mode, mtime, data },
            NodeV::Symlink { target_abs, target } => EntryKindV::Symlink { target_abs, target },
        },
    }
}

/// A path is pruned when it, or any ancestor directory, matches the ignore
/// rules: the walker never descends into an ignored directory.
#[verifier::opaque]
pub open spec fn spec_path_pruned(rules: Seq<Seq<char>>, p: Seq<Seq<char>>, is_dir: bool) -> bool {
    spec_ignore_match(rules, spec_join(p), is_dir) || exists|k: int|
        1 <= k < p.len() && spec_ignore_match(rules, spec_join(#[trigger] p.subrange(0, k)), true)
}

/// Pruning splits into the path's own verdict and its parent's pruning.
pub proof fn lemma_pruned_split(rules: Seq<Seq<char>>, p: Seq<Seq<char>>, is_dir: bool)
    requires
        p.len() >= 1,
    ensures
        spec_path_pruned(rules, p, is_dir) == (spec_ignore_match(rules, spec_join(p), is_dir) || (
        p.len() > 1 && spec_path_pruned(rules, p.drop_last(), true))),
{
    reveal(spec_path_pruned);
    let parent = p.drop_last();
    if p.len() > 1 {
        assert(parent =~= p.subrange(0, p.len() - 1));
        if exists|k: int|
            1 <= k < p.len() && spec_ignore_match(rules, spec_join(#[trigger] p.subrange(0, k)), true) {
            let k = choose|k: int|
                1 <= k < p.len() && spec_ignore_match(
                    rules,
                    spec_join(#[trigger] p.subrange(0, k)),
                    true,
                );
            if k == p.len() - 1 {
                assert(spec_ignore_match(rules, spec_join(parent), true));
            } else {
                assert(parent.subrange(0, k) =~= p.subrange(0, k));
                assert(spec_path_pruned(rules, parent, true));
            }
        }
        if spec_path_pruned(rules, parent, true) {
            if spec_ignore_match(rules, spec_join(parent), true) {
                assert(p.subrange(0, p.len() - 1) == parent);
                assert(spec_ignore_match(rules, spec_join(p.subrange(0, p.len() - 1)), true));
            } else {
                let k = choose|k: int|
                    1 <= k < parent.len() && spec_ignore_match(
                        rules,
                        spec_join(#[trigger] parent.subrange(0, k)),
                        true,
                    );
                assert(p.subrange(0, k) =~= parent.subrange(0, k));
                assert(spec_ignore_match(rules, spec_join(p.subrange(0, k)), true));
            }
        }
    }
}

/// The tar listing of a tree: its entries in stored order, pruned entries
/// left out, each node carried whole.
pub open spec fn spec_tar_plan(s: Seq<EntryV>, rules: Seq<Seq<char>>) -> Seq<ArchiveEntryV>
    decreases s.len(),
{
    if s.len() == 0 {
        Seq::empty()
    } else {
        spec_tar_plan(s.drop_last(), rules) + if spec_path_pruned(
            rules,
            s.last().path,
            s.last().node is Dir,
        ) {
            Seq::empty()
        } else {
            seq![entry_of_node(s.last())]
        }
    }
}

impl ConfinedFs {
    /// Walks the tree and builds the tar listing: ignored entries and
    /// everything under an ignored directory are left out.
    pub fn tar_entries(&self) -> (r: Vec<ArchiveEntry>)
        requires
            self.wf(),
        ensures
            plan_view(r@) == spec_tar_plan(self.view(), self.rules_view()),
    {
        let ghost s = self.view();
        let ghost rules = self.rules_view();
        let listing = self.walk();
        let mut r: Vec<ArchiveEntry> = Vec::new();
        let mut i: usize = 0;
        proof {
            assert(s.subrange(0, 0) =~= Seq::<EntryV>::empty());
            assert(plan_view(r@) =~= Seq::<ArchiveEntryV>::empty());
        }
        while i < listing.len()
            invariant
                self.wf(),
                s == self.view(),
                rules == self.rules_view(),
                listing@.len() == s.len(),
                forall|j: int|
                    0 <= j < listing@.len() ==> (#[trigger] listing@[j]).0 == (s[j].node is Dir)
                        && pv(listing@[j].1@) == s[j].path,
                0 <= i <= s.len(),
                plan_view(r@) == spec_tar_plan(s.subrange(0, i as int), rules),
            decreases listing@.len() - i,
        {
            let ghost prev = s.subrange(0, i as int);
            let is_dir = listing[i].0;
            let pruned = self.path_pruned_exec(&listing[i].1, is_dir);
            if !pruned {
                let node_entry = self.entry_at(i, Ghost(s));
                r.push(node_entry);
            }
            proof {
                assert(s.subrange(0, i + 1).drop_last() =~= prev);
                assert(s.subrange(0, i + 1).last() == s[i as int]);
                if pruned {
                    assert(plan_view(r@) =~= spec_tar_plan(prev, rules) + Seq::<
                        ArchiveEntryV,
                    >::empty());
                } else {
                    assert(plan_view(r@) =~= spec_tar_plan(prev, rules) + seq![entry_of_node(
                        s[i as int],
                    )]);
                }
            }
            i += 1;
        }
        proof {
            assert(s.subrange(0, s.len() as int) =~= s);
        }
        r
    }

    /// Is this path ignored itself, or lying under an ignored directory?
    pub fn path_pruned_exec(&self, path: &Vec<String>, is_dir: bool) -> (r: bool)
        ensures
            r == spec_path_pruned(self.rules_view(), pv(path@), is_dir),
    {
        proof {
            reveal(spec_path_pruned);
        }
        let ghost rules = self.rules_view();
        let ghost p = pv(path@);
        if self.is_ignored(path, is_dir) {
            return true;
        }
        let mut prefix: Vec<String> = Vec::new();
        let mut k: usize = 0;
        proof {
            assert(pv(prefix@) =~= p.subrange(0, 0));
        }
        while path.len() > 0 && k < path.len() - 1
            invariant
                0 <= k <= path@.len(),
                p == pv(path@),
                rules == self.rules_view(),
                prefix@.len() == k,
                forall|j: int| 0 <= j < k ==> (#[trigger] prefix@[j])@ == p[j],
                forall|w: int|
                    1 <= w <= k ==> !spec_ignore_match(
                        rules,
                        spec_join(#[trigger] p.subrange(0, w)),
                        true,
                    ),
            decreases path@.len() - k,
        {
            let ghost pre = prefix@;
            prefix.push(path[k].clone());
            proof {
                assert(prefix@.len() == k + 1);
                assert forall|j: int| 0 <= j < k + 1 implies pv(prefix@)[j] == p.subrange(
                    0,
                    k + 1,
                )[j] by {
                    if j < k {
                        assert(prefix@[j] == pre[j]);
                        assert(pv(pre)[j] == p.subrange(0, k as int)[j]);
                    } else {
                        assert(prefix@[j]@ == path@[k as int]@);
                    }
                };
                assert(pv(prefix@) =~= p.subrange(0, k + 1));
            }
            if self.is_ignored(&prefix, true) {
                proof {
                    reveal(spec_path_pruned);
                    assert(spec_ignore_match(rules, spec_join(p.subrange(0, k + 1)), true));
                    assert(1 <= k + 1 < p.len());
                    assert(exists|w: int|
                        1 <= w < p.len() && spec_ignore_match(
                            rules,
                            spec_join(#[trigger] p.subrange(0, w)),
                            true,
                        ));
                }
                return true;
            }
            k += 1;
        }
        proof {
            assert(forall|w: int|
                1 <= w < p.len() ==> !spec_ignore_match(
                    rules,
                    spec_join(#[trigger] p.subrange(0, w)),
                    true,
                ));
        }
        false
    }

    /// The archive entry for the tree node at one walk position.
    fn entry_at(&self, i: usize, Ghost(s): Ghost<Seq<EntryV>>) -> (r: ArchiveEntry)
        requires
            s == self.view(),
            i < s.len(),
        ensures
            av(r) == entry_of_node(s[i as int]),
    {
        let (path, node) = self.entry_parts(i);
        let kind = match node {
            crate::vfs::Node::Dir { mode, mtime } => EntryKind::Dir { mode, mtime },
            crate::vfs::Node::File { mode, mtime, data } => EntryKind::File { mode, mtime, data },
            crate::vfs::Node::Symlink { target_abs, target } => EntryKind::Symlink {
                target_abs,
                target,
            },
        };
        ArchiveEntry { absolute: false, path, kind }
    }
}


/// The first plan entry with the given path.
pub open spec fn pfind(s: Seq<ArchiveEntryV>, path: Seq<Seq<char>>) -> Option<ArchiveEntryV>
    decreases s.len(),
{
    if s.len() == 0 {
        Option::None
    } else if s[0].path == path {
        Some(s[0])
    } else {
        pfind(s.subrange(1, s.len() as int), path)
    }
}

pub proof fn lemma_pfind_push(s: Seq<ArchiveEntryV>, e: ArchiveEntryV, q: Seq<Seq<char>>)
    ensures
        pfind(s.push(e), q) == match pfind(s, q) {
            Some(x) => Some(x),
            Option::None => if q == e.path {
                Some(e)
            } else {
                Option::None
            },
        },
    decreases s.len(),
{
    let u = s.push(e);
    if s.len() == 0 {
        assert(u[0] == e);
        if q == e.path {
            assert(pfind(u, q) == Some(e));
        } else {
            assert(u.subrange(1, u.len() as int).len() == 0);
            assert(pfind(u.subrange(1, u.len() as int), q) is None);
            assert(pfind(u, q) is None);
        }
    } else {
        assert(u[0] == s[0]);
        assert(u.subrange(1, u.len() as int) =~= s.subrange(1, s.len() as int).push(e));
        lemma_pfind_push(s.subrange(1, s.len() as int), e, q);
        if s[0].path == q {
            assert(pfind(s, q) == Some(s[0]));
            assert(pfind(u, q) == Some(u[0]));
        } else {
            assert(pfind(s, q) == pfind(s.subrange(1, s.len() as int), q));
            assert(pfind(u, q) == pfind(u.subrange(1, u.len() as int), q));
        }
    }
}

pub proof fn lemma_pfind_none(s: Seq<ArchiveEntryV>, q: Seq<Seq<char>>)
    requires
        pfind(s, q) is None,
    ensures
        forall|i: int| 0 <= i < s.len() ==> (#[trigger] s[i].path) != q,
    decreases s.len(),
{
    if s.len() > 0 {
        let tail = s.subrange(1, s.len() as int);
        lemma_pfind_none(tail, q);
        assert(forall|i: int| 1 <= i < s.len() ==> s[i] == tail[i - 1]);
    }
}

pub proof fn lemma_pfind_some_index(s: Seq<ArchiveEntryV>, q: Seq<Seq<char>>)
    requires
        pfind(s, q) is Some,
    ensures
        exists|i: int|
            0 <= i < s.len() && #[trigger] s[i] == pfind(s, q)->Some_0 && s[i].path == q,
    decreases s.len(),
{
    if s.len() > 0 {
        if s[0].path == q {
            assert(s[0] == pfind(s, q)->Some_0);
        } else {
            let tail = s.subrange(1, s.len() as int);
            lemma_pfind_some_index(tail, q);
            let i = choose|i: int|
                0 <= i < tail.len() && #[trigger] tail[i] == pfind(tail, q)->Some_0 && tail[i].path
                    == q;
            assert(s[i + 1] == tail[i]);
        }
    }
}

/// What `spec_find` returns carries the looked-up path.
pub proof fn lemma_find_path(s: Seq<EntryV>, q: Seq<Seq<char>>)
    ensures
        spec_find(s, q) matches Some(e) ==> e.path == q,
    decreases s.len(),
{
    if s.len() > 0 && s[0].path != q {
        lemma_find_path(s.subrange(1, s.len() as int), q);
    }
}

/// With parents closed, every proper prefix of an entry's path stands
/// earlier in the list as a directory.
pub proof fn lemma_fs_ancestors(s: Seq<EntryV>, i: int, k: int)
    requires
        parents_closed(s),
        0 <= i < s.len(),
        1 <= k < s[i].path.len(),
    ensures
        exists|j: int|
            0 <= j < i && (#[trigger] s[j].path) == s[i].path.subrange(0, k) && s[j].node is Dir,
    decreases i,
{
    let p = s[i].path;
    let j = choose|j: int|
        0 <= j < i && (#[trigger] s[j].path) == s[i].path.drop_last() && s[j].node is Dir;
    if k == p.len() - 1 {
        assert(p.drop_last() =~= p.subrange(0, k));
    } else {
        assert(s[j].path.len() == p.len() - 1);
        lemma_fs_ancestors(s, j, k);
        let j2 = choose|j2: int|
            0 <= j2 < j && (#[trigger] s[j2].path) == s[j].path.subrange(0, k) && s[j2].node is Dir;
        assert(s[j].path.subrange(0, k) =~= p.subrange(0, k));
    }
}

/// A pruned prefix makes the whole path pruned.
pub proof fn lemma_pruned_prefix(rules: Seq<Seq<char>>, p: Seq<Seq<char>>, k: int, is_dir: bool)
    requires
        1 <= k < p.len(),
        spec_path_pruned(rules, p.subrange(0, k), true),
    ensures
        spec_path_pruned(rules, p, is_dir),
{
    reveal(spec_path_pruned);
    let q = p.subrange(0, k);
    if spec_ignore_match(rules, spec_join(q), true) {
        assert(spec_ignore_match(rules, spec_join(p.subrange(0, k)), true));
    } else {
        let w = choose|w: int|
            1 <= w < q.len() && spec_ignore_match(rules, spec_join(#[trigger] q.subrange(0, w)), true);
        assert(q.subrange(0, w) =~= p.subrange(0, w));
        assert(spec_ignore_match(rules, spec_join(p.subrange(0, w)), true));
    }
}

/// The tar listing looked up by path is the tree looked up by path, with
/// pruned entries gone.
pub proof fn lemma_plan_vs_fs(s: Seq<EntryV>, rules: Seq<Seq<char>>, q: Seq<Seq<char>>)
    requires
        unique_paths(s),
    ensures
        pfind(spec_tar_plan(s, rules), q) == match spec_find(s, q) {
            Some(e) => if spec_path_pruned(rules, q, e.node is Dir) {
                Option::None
            } else {
                Some(entry_of_node(e))
            },
            Option::None => Option::None,
        },
    decreases s.len(),
{
    if s.len() == 0 {
    } else {
        let d = s.drop_last();
        let e = s.last();
        assert(unique_paths(d)) by {
            assert(forall|a: int, b: int| 0 <= a < b < d.len() ==> d[a] == s[a] && d[b] == s[b]);
        };
        lemma_plan_vs_fs(d, rules, q);
        lemma_find_path(s, q);
        lemma_find_path(d, q);
        assert(s =~= d.push(e));
        lemma_find_push(d, e, q);
        if spec_find(d, q) is Some && q == e.path {
            crate::vfs::lemma_find_some_index(d, q);
            let i = choose|i: int|
                0 <= i < d.len() && #[trigger] d[i] == spec_find(d, q)->Some_0 && d[i].path == q;
            assert(s[i] == d[i] && s[s.len() - 1] == e);
            assert(false);
        }
        if spec_path_pruned(rules, e.path, e.node is Dir) {
            assert(spec_tar_plan(s, rules) =~= spec_tar_plan(d, rules));
        } else {
            assert(spec_tar_plan(s, rules) =~= spec_tar_plan(d, rules).push(entry_of_node(e)));
            lemma_pfind_push(spec_tar_plan(d, rules), entry_of_node(e), q);
        }
    }
}

/// Whether extraction applies an entry: absolute names and unknown kinds
/// never, and under zip rules a symlink only when its stored target is 1 to
/// 2048 bytes long.
pub open spec fn sym_len(target_abs: bool, target: Seq<Seq<char>>) -> int {
    spec_join(target).len() + if target_abs {
        1int
    } else {
        0int
    }
}

pub open spec fn applies(e: ArchiveEntryV, zip_rules: bool) -> bool {
    &&& !e.absolute
    &&& !(e.kind is Other)
    &&& match e.kind {
        EntryKindV::Symlink { target_abs, target } => !zip_rules || (1 <= sym_len(
            target_abs,
            target,
        ) <= 2048),
        _ => true,
    }
}

/// What extraction leaves at a path, given the listing.
pub open spec fn expected_after(P: Seq<ArchiveEntryV>, q: Seq<Seq<char>>, zip_rules: bool) -> Option<
    EntryV,
> {
    match pfind(P, q) {
        Some(e) => if applies(e, zip_rules) {
            Some(EntryV { path: e.path, node: node_of_kind(e.kind) })
        } else {
            Option::None
        },
        Option::None => Option::None,
    }
}

/// Bytes of file contents a listing holds.
pub open spec fn plan_total(P: Seq<ArchiveEntryV>) -> nat
    decreases P.len(),
{
    if P.len() == 0 {
        0
    } else {
        plan_total(P.drop_last()) + match P.last().kind {
            EntryKindV::File { data, .. } => data.len(),
            _ => 0,
        }
    }
}

/// Bytes of file contents extraction actually writes.
pub open spec fn applied_total(P: Seq<ArchiveEntryV>, zip_rules: bool) -> nat
    decreases P.len(),
{
    if P.len() == 0 {
        0
    } else {
        applied_total(P.drop_last(), zip_rules) + if applies(P.last(), zip_rules) {
            match P.last().kind {
                EntryKindV::File { data, .. } => data.len(),
                _ => 0,
            }
        } else {
            0
        }
    }
}

pub proof fn lemma_applied_le_total(P: Seq<ArchiveEntryV>, zip_rules: bool)
    ensures
        applied_total(P, zip_rules) <= plan_total(P),
    decreases P.len(),
{
    if P.len() > 0 {
        lemma_applied_le_total(P.drop_last(), zip_rules);
    }
}

pub proof fn lemma_plan_total_take(P: Seq<ArchiveEntryV>, i: int)
    requires
        0 <= i <= P.len(),
    ensures
        plan_total(P.subrange(0, i)) <= plan_total(P),
    decreases P.len(),
{
    if i == P.len() {
        assert(P.subrange(0, i) =~= P);
    } else {
        assert(P.drop_last().subrange(0, i) =~= P.subrange(0, i));
        lemma_plan_total_take(P.drop_last(), i);
    }
}

pub proof fn lemma_applied_total_take(P: Seq<ArchiveEntryV>, i: int, zip_rules: bool)
    requires
        0 <= i <= P.len(),
    ensures
        applied_total(P.subrange(0, i), zip_rules) <= plan_total(P),
{
    lemma_applied_le_total(P.subrange(0, i), zip_rules);
    lemma_plan_total_take(P, i);
}

/// A listing fit for faithful extraction: clean distinct relative paths,
/// no unknown kinds, nothing the rules ignore, and every ancestor present
/// earlier as a directory — exactly what the archive builders emit.
pub open spec fn plan_ok(P: Seq<ArchiveEntryV>, rules: Seq<Seq<char>>) -> bool {
    &&& forall|b: int|
        0 <= b < P.len() ==> clean_path(#[trigger] P[b].path) && P[b].path.len() >= 1
            && !P[b].absolute && !(P[b].kind is Other) && !spec_ignore_match(
            rules,
            spec_join(P[b].path),
            P[b].kind is Dir,
        )
    &&& forall|a: int, b: int|
        0 <= a < b < P.len() ==> (#[trigger] P[a].path) != (#[trigger] P[b].path)
    &&& forall|b: int, k: int|
        0 <= b < P.len() && 1 <= k < P[b].path.len() ==> exists|a: int|
            0 <= a < b && (#[trigger] P[a].path) == (#[trigger] P[b].path.subrange(0, k))
                && P[a].kind is Dir
}

/// The tar listing of a well-formed tree is fit for extraction.
pub proof fn lemma_tar_plan_ok(s: Seq<EntryV>, rules: Seq<Seq<char>>)
    requires
        paths_clean(s),
        unique_paths(s),
        parents_closed(s),
    ensures
        plan_ok(spec_tar_plan(s, rules), rules),
    decreases s.len(),
{
    reveal(spec_path_pruned);
    if s.len() == 0 {
    } else {
        let d = s.drop_last();
        let e = s.last();
        let P = spec_tar_plan(s, rules);
        let Pd = spec_tar_plan(d, rules);
        assert(paths_clean(d) && unique_paths(d) && parents_closed(d)) by {
            assert(forall|a: int| 0 <= a < d.len() ==> d[a] == s[a]);
            assert forall|i: int|
                0 <= i < d.len() && (#[trigger] d[i].path).len() > 1 implies exists|j: int|
                0 <= j < i && (#[trigger] d[j].path) == d[i].path.drop_last() && d[j].node
                    is Dir by {
                let j = choose|j: int|
                    0 <= j < i && (#[trigger] s[j].path) == s[i].path.drop_last() && s[j].node
                        is Dir;
                assert(d[j] == s[j]);
            };
        };
        lemma_tar_plan_ok(d, rules);
        if spec_path_pruned(rules, e.path, e.node is Dir) {
            assert(P =~= Pd);
        } else {
            assert(P =~= Pd.push(entry_of_node(e)));
            let ne = entry_of_node(e);
            let b = Pd.len() as int;
            assert(P[b] == ne);
            assert(forall|a: int| 0 <= a < b ==> P[a] == Pd[a]);
            // the new entry's own properties
            assert(clean_path(ne.path) && ne.path.len() >= 1) by {
                assert(s[s.len() - 1] == e);
            };
            assert(!spec_ignore_match(rules, spec_join(ne.path), ne.kind is Dir)) by {
                assert((ne.kind is Dir) == (e.node is Dir));
            };
            // no earlier plan entry shares its path
            assert(spec_find(d, e.path) is None) by {
                if spec_find(d, e.path) is Some {
                    crate::vfs::lemma_find_some_index(d, e.path);
                    let i = choose|i: int|
                        0 <= i < d.len() && #[trigger] d[i] == spec_find(d, e.path)->Some_0
                            && d[i].path == e.path;
                    assert(s[i] == d[i] && s[s.len() - 1] == e);
                }
            };
            lemma_plan_vs_fs(d, rules, e.path);
            assert(pfind(Pd, e.path) is None);
            lemma_pfind_none(Pd, e.path);
            assert forall|a: int, b2: int| 0 <= a < b2 < P.len() implies (#[trigger] P[a].path)
                != (#[trigger] P[b2].path) by {
                if b2 == b {
                    assert(Pd[a].path != e.path);
                }
            };
            // ancestors of the new entry stand earlier in the listing
            assert forall|k: int| 1 <= k < ne.path.len() implies exists|a: int|
                0 <= a < b && (#[trigger] P[a].path) == (#[trigger] ne.path.subrange(0, k))
                    && P[a].kind is Dir by {
                lemma_fs_ancestors(s, s.len() - 1, k);
                let j = choose|j: int|
                    0 <= j < s.len() - 1 && (#[trigger] s[j].path) == e.path.subrange(0, k)
                        && s[j].node is Dir;
                let qp = e.path.subrange(0, k);
                assert(d[j] == s[j]);
                assert(spec_find(d, qp) is Some) by {
                    if spec_find(d, qp) is None {
                        lemma_find_none(d, qp);
                    }
                };
                crate::vfs::lemma_find_some_index(d, qp);
                let w = choose|w: int|
                    0 <= w < d.len() && #[trigger] d[w] == spec_find(d, qp)->Some_0 && d[w].path
                        == qp;
                assert(w == j) by {
                    if w != j {
                        assert(d[w].path == d[j].path);
                    }
                };
                assert(spec_find(d, qp)->Some_0.node is Dir);
                assert(!spec_path_pruned(rules, qp, true)) by {
                    if spec_path_pruned(rules, qp, true) {
                        lemma_pruned_prefix(rules, e.path, k, e.node is Dir);
                    }
                };
                lemma_plan_vs_fs(d, rules, qp);
                assert(pfind(Pd, qp) is Some);
                lemma_pfind_some_index(Pd, qp);
                let a = choose|a: int|
                    0 <= a < Pd.len() && #[trigger] Pd[a] == pfind(Pd, qp)->Some_0 && Pd[a].path
                        == qp;
                assert(P[a] == Pd[a]);
                assert(P[a].kind is Dir);
            };
            assert forall|b2: int, k: int|
                0 <= b2 < P.len() && 1 <= k < P[b2].path.len() implies exists|a: int|
                0 <= a < b2 && (#[trigger] P[a].path) == (#[trigger] P[b2].path.subrange(0, k))
                    && P[a].kind is Dir by {
                if b2 < b {
                    let a = choose|a: int|
                        0 <= a < b2 && (#[trigger] Pd[a].path) == Pd[b2].path.subrange(0, k)
                            && Pd[a].kind is Dir;
                    assert(P[a] == Pd[a]);
                }
            };
        }
    }
}

/// Resolution of a fresh clean path whose ancestors are directories walks
/// straight through and returns the path itself.
pub proof fn lemma_resolve_straight(
    v: Seq<EntryV>,
    done: Seq<Seq<char>>,
    pending: Seq<Seq<char>>,
    fuel: nat,
    follow_last: bool,
)
    requires
        pending.len() >= 1,
        clean_path(pending),
        spec_find(v, done + pending) is None,
        forall|k: int|
            0 < k < pending.len() ==> ((#[trigger] spec_find(
                v,
                done + pending.subrange(0, k),
            )) matches Some(e) && e.node is Dir),
    ensures
        spec_resolve(v, done, pending, fuel, follow_last) == Some(done + pending),
    decreases pending.len(),
{
    let c = pending[0];
    let rest = pending.subrange(1, pending.len() as int);
    assert(clean_component(c));
    assert(c.len() > 0 && c != seq!['.'] && c != seq!['.', '.']);
    let np = done.push(c);
    if pending.len() == 1 {
        assert(np =~= done + pending);
        assert(spec_find(v, np) is None);
        assert(spec_resolve(v, done, pending, fuel, follow_last) == Some(np));
    } else {
        assert(np =~= done + pending.subrange(0, 1));
        assert(spec_find(v, np) matches Some(e) && e.node is Dir);
        assert(clean_path(rest)) by {
            assert(forall|j: int| 0 <= j < rest.len() ==> rest[j] == pending[j + 1]);
        };
        assert(np + rest =~= done + pending);
        assert(spec_find(v, np + rest) is None);
        assert forall|k: int| 0 < k < rest.len() implies ((#[trigger] spec_find(
            v,
            np + rest.subrange(0, k),
        )) matches Some(e) && e.node is Dir) by {
            assert(np + rest.subrange(0, k) =~= done + pending.subrange(0, k + 1));
            assert((spec_find(v, done + pending.subrange(0, k + 1)) matches Some(e) && e.node
                is Dir));
        };
        lemma_resolve_straight(v, np, rest, fuel, follow_last);
    }
}

/// Before applying the entry at `i` of a well-formed listing: its path is
/// not yet present, and resolves to itself, because every ancestor was
/// applied earlier as a directory.
pub proof fn extract_step_setup(
    v: Seq<EntryV>,
    P: Seq<ArchiveEntryV>,
    i: int,
    zip_rules: bool,
    rules: Seq<Seq<char>>,
)
    requires
        plan_ok(P, rules),
        0 <= i < P.len(),
        forall|q: Seq<Seq<char>>|
            spec_find(v, q) == expected_after(P.subrange(0, i), q, zip_rules),
    ensures
        spec_find(v, P[i].path) is None,
        spec_resolved(v, P[i].path, true) == Some(P[i].path),
        spec_resolved(v, P[i].path, false) == Some(P[i].path),
{
    let prevP = P.subrange(0, i);
    let p = P[i].path;
    assert(spec_find(v, p) is None) by {
        assert(pfind(prevP, p) is None) by {
            if pfind(prevP, p) is Some {
                lemma_pfind_some_index(prevP, p);
                let a = choose|a: int|
                    0 <= a < prevP.len() && #[trigger] prevP[a] == pfind(prevP, p)->Some_0
                        && prevP[a].path == p;
                assert(P[a] == prevP[a]);
            }
        };
        assert(spec_find(v, p) == expected_after(prevP, p, zip_rules));
    };
    assert forall|k: int| 0 < k < p.len() implies ((#[trigger] spec_find(
        v,
        Seq::<Seq<char>>::empty() + p.subrange(0, k),
    )) matches Some(e) && e.node is Dir) by {
        let qp = p.subrange(0, k);
        assert(Seq::<Seq<char>>::empty() + qp =~= qp);
        let a = choose|a: int|
            0 <= a < i && (#[trigger] P[a].path) == p.subrange(0, k) && P[a].kind is Dir;
        assert(prevP[a] == P[a]);
        assert(pfind(prevP, qp) is Some) by {
            if pfind(prevP, qp) is None {
                lemma_pfind_none(prevP, qp);
            }
        };
        lemma_pfind_some_index(prevP, qp);
        let w = choose|w: int|
            0 <= w < prevP.len() && #[trigger] prevP[w] == pfind(prevP, qp)->Some_0 && prevP[w].path
                == qp;
        assert(w == a) by {
            if w != a {
                assert(P[w] == prevP[w]);
                assert(P[w].path == P[a].path);
            }
        };
        assert(pfind(prevP, qp)->Some_0.kind is Dir);
        assert(applies(pfind(prevP, qp)->Some_0, zip_rules));
        assert(spec_find(v, qp) == expected_after(prevP, qp, zip_rules));
        assert(node_of_kind(pfind(prevP, qp)->Some_0.kind) is Dir);
    };
    assert(clean_path(p) && p.len() >= 1);
    assert(spec_find(v, Seq::<Seq<char>>::empty() + p) is None) by {
        assert(Seq::<Seq<char>>::empty() + p =~= p);
    };
    lemma_resolve_straight(v, Seq::empty(), p, 40, true);
    lemma_resolve_straight(v, Seq::empty(), p, 40, false);
    assert(Seq::<Seq<char>>::empty() + p =~= p);
}

/// Applies an archive listing to the confined filesystem: absolute names,
/// ignored paths and unknown kinds are skipped, directories set their mode
/// and mtime, files are written whole, symlinks store their target (under
/// zip rules only with a stored size of 1 to 2048). Failures of single
/// entries are skipped, as archives are restored best-effort. Extracting a
/// listing the builders produced into a fresh unlimited tree reproduces it
/// exactly.
pub fn extract_entries(fs: &mut ConfinedFs, entries: &Vec<ArchiveEntry>, zip_rules: bool)
    requires
        old(fs).wf(),
    ensures
        final(fs).wf(),
        final(fs).rules_view() == old(fs).rules_view(),
        final(fs).spec_limit() == old(fs).spec_limit(),
        forall|q: Seq<Seq<char>>|
            #![trigger spec_find(final(fs).view(), q)]
            spec_find(final(fs).view(), q) != spec_find(old(fs).view(), q) ==> exists|i: int|
                0 <= i < plan_view(entries@).len() && applies(
                    #[trigger] plan_view(entries@)[i],
                    zip_rules,
                ) && !spec_ignore_match(
                    old(fs).rules_view(),
                    spec_join(plan_view(entries@)[i].path),
                    plan_view(entries@)[i].kind is Dir,
                ),
        (plan_ok(plan_view(entries@), old(fs).rules_view()) && old(fs).view().len() == 0 && old(
            fs,
        ).spec_limit() == 0 && plan_total(plan_view(entries@)) <= u64::MAX) ==> forall|
            q: Seq<Seq<char>>,
        |
            spec_find(final(fs).view(), q) == expected_after(plan_view(entries@), q, zip_rules),
{
    let ghost P = plan_view(entries@);
    let ghost rules = old(fs).rules_view();
    let ghost hyp = plan_ok(P, rules) && old(fs).view().len() == 0 && old(fs).spec_limit() == 0
        && plan_total(P) <= u64::MAX;
    let mut i: usize = 0;
    proof {
        if hyp {
            assert(P.subrange(0, 0) =~= Seq::<ArchiveEntryV>::empty());
            assert(applied_total(P.subrange(0, 0), zip_rules) == 0);
            assert forall|q: Seq<Seq<char>>|
                spec_find(fs.view(), q) == expected_after(
                    P.subrange(0, 0),
                    q,
                    zip_rules,
                ) by {
                if spec_find(fs.view(), q) is Some {
                    crate::vfs::lemma_find_some_index(fs.view(), q);
                }
            };
        }
    }
    while i < entries.len()
        invariant
            fs.wf(),
            fs.rules_view() == rules,
            fs.spec_limit() == old(fs).spec_limit(),
            rules == old(fs).rules_view(),
            P == plan_view(entries@),
            hyp == (plan_ok(P, rules) && old(fs).view().len() == 0 && old(fs).spec_limit() == 0
                && plan_total(P) <= u64::MAX),
            0 <= i <= entries@.len(),
            forall|q: Seq<Seq<char>>|
                #![trigger spec_find(fs.view(), q)]
                spec_find(fs.view(), q) != spec_find(old(fs).view(), q) ==> exists|i2: int|
                    0 <= i2 < i && applies(#[trigger] P[i2], zip_rules) && !spec_ignore_match(
                        rules,
                        spec_join(P[i2].path),
                        P[i2].kind is Dir,
                    ),
            hyp ==> fs.spec_usage() as nat == applied_total(P.subrange(0, i as int), zip_rules),
            hyp ==> forall|q: Seq<Seq<char>>|
                spec_find(fs.view(), q) == expected_after(P.subrange(0, i as int), q, zip_rules),
        decreases entries@.len() - i,
    {
        let ghost prevP = P.subrange(0, i as int);
        let ghost cur = P[i as int];
        proof {
            assert(P.subrange(0, i + 1).drop_last() =~= prevP);
            assert(P.subrange(0, i + 1).last() == cur);
            if hyp {
                assert(clean_path(cur.path) && cur.path.len() >= 1 && !cur.absolute && !(cur.kind
                    is Other) && !spec_ignore_match(rules, spec_join(cur.path), cur.kind is Dir));
            }
        }
        let e = &entries[i];
        let ghost fsv0 = fs.view();
        proof {
            assert(av(entries@[i as int]) == cur);
        }
        let mut skip = false;
        if e.absolute {
            skip = true;
        } else {
            let is_dir = match &e.kind {
                EntryKind::Dir { .. } => true,
                _ => false,
            };
            if fs.is_ignored(&e.path, is_dir) {
                skip = true;
            }
        }
        if !skip {
            match &e.kind {
                EntryKind::Dir { mode, mtime } => {
                    proof {
                        if hyp {
                            extract_step_setup(fs.view(), P, i as int, zip_rules, rules);
                        }
                    }
                    let res = fs.put_dir(&e.path, *mode, *mtime);
                    proof {
                        if hyp {
                            assert(res is Ok) by {
                                if res is Err {
                                    assert(crate::vfs::dir_target(fs.view(), pv(e.path@)) is None);
                                }
                            };
                        }
                    }
                },
                EntryKind::File { mode, mtime, data } => {
                    proof {
                        if hyp {
                            extract_step_setup(fs.view(), P, i as int, zip_rules, rules);
                        }
                        if hyp {
                            lemma_applied_total_take(P, i as int, zip_rules);
                            lemma_plan_total_take(P, i + 1);
                            assert(applied_total(P.subrange(0, i + 1), zip_rules) <= plan_total(
                                P.subrange(0, i + 1),
                            )) by {
                                lemma_applied_le_total(P.subrange(0, i + 1), zip_rules);
                            };
                        }
                    }
                    let res = fs.create(&e.path, clone_bytes(data), *mode, *mtime);
                    proof {
                        if hyp {
                            assert(res is Ok) by {
                                if res is Err {
                                    let err = res->Err_0;
                                    if err is NotFound {
                                        assert(create_target(fs.view(), pv(e.path@)) is None);
                                    }
                                }
                            };
                        }
                    }
                },
                EntryKind::Symlink { target_abs, target } => {
                    let mut window_ok = true;
                    if zip_rules {
                        let joined = crate::ignore_rules::join_path(target);
                        let jl = vstd::string::StrSliceExecFns::unicode_len(joined.as_str());
                        if *target_abs {
                            window_ok = jl <= 2047;
                        } else {
                            window_ok = 1 <= jl && jl <= 2048;
                        }
                    }
                    if window_ok {
                        proof {
                            if hyp {
                            extract_step_setup(fs.view(), P, i as int, zip_rules, rules);
                        }
                        }
                        let res = fs.symlink(&e.path, *target_abs, clone_path(target));
                        proof {
                            if hyp {
                                assert(res is Ok) by {
                                    if res is Err {
                                        assert(link_target_path(fs.view(), pv(e.path@)) is None);
                                    }
                                };
                            }
                        }
                    }
                },
                EntryKind::Other => {},
            }
        }
        proof {
            if hyp {
                assert(P.subrange(0, i + 1) =~= prevP.push(cur));
                assert(pfind(prevP, cur.path) is None) by {
                    if pfind(prevP, cur.path) is Some {
                        lemma_pfind_some_index(prevP, cur.path);
                        let a = choose|a: int|
                            0 <= a < prevP.len() && #[trigger] prevP[a] == pfind(
                                prevP,
                                cur.path,
                            )->Some_0 && prevP[a].path == cur.path;
                        assert(P[a] == prevP[a]);
                    }
                };
                assert forall|q: Seq<Seq<char>>|
                    spec_find(fs.view(), q) == expected_after(
                        P.subrange(0, i + 1),
                        q,
                        zip_rules,
                    ) by {
                    lemma_pfind_push(prevP, cur, q);
                    assert(pfind(P.subrange(0, i + 1), q) == pfind(prevP.push(cur), q));
                    if q != cur.path {
                        assert(pfind(prevP.push(cur), q) == pfind(prevP, q));
                        assert(expected_after(P.subrange(0, i + 1), q, zip_rules)
                            == expected_after(prevP, q, zip_rules));
                    } else {
                        assert(pfind(prevP.push(cur), q) == Some(cur));
                    }
                };
                assert(applied_total(P.subrange(0, i + 1), zip_rules) == applied_total(
                    prevP,
                    zip_rules,
                ) + if applies(cur, zip_rules) {
                    match cur.kind {
                        EntryKindV::File { data, .. } => data.len(),
                        _ => 0,
                    }
                } else {
                    0nat
                }) by {
                    assert(P.subrange(0, i + 1).drop_last() =~= prevP);
                    assert(P.subrange(0, i + 1).last() == cur);
                };
                assert(fs.spec_usage() as nat == applied_total(P.subrange(0, i + 1), zip_rules));
            }
            assert forall|q: Seq<Seq<char>>|
                #![trigger spec_find(fs.view(), q)]
                spec_find(fs.view(), q) != spec_find(old(fs).view(), q) implies exists|i2: int|
                0 <= i2 < i + 1 && applies(#[trigger] P[i2], zip_rules) && !spec_ignore_match(
                    rules,
                    spec_join(P[i2].path),
                    P[i2].kind is Dir,
                ) by {
                if spec_find(fs.view(), q) == spec_find(fsv0, q) {
                    let w = choose|i2: int|
                        0 <= i2 < i && applies(#[trigger] P[i2], zip_rules) && !spec_ignore_match(
                            rules,
                            spec_join(P[i2].path),
                            P[i2].kind is Dir,
                        );
                    assert(0 <= w < i + 1);
                } else {
                    assert(applies(cur, zip_rules) && !spec_ignore_match(
                        rules,
                        spec_join(cur.path),
                        cur.kind is Dir,
                    ));
                    assert(P[i as int] == cur);
                }
            };
        }
        i += 1;
    }
    proof {
        if hyp {
            assert(P.subrange(0, P.len() as int) =~= P);
        }
    }
}

/// File bytes in the tar listing never exceed the tree's bytes.
pub proof fn lemma_plan_total_le_fs(s: Seq<EntryV>, rules: Seq<Seq<char>>)
    ensures
        plan_total(spec_tar_plan(s, rules)) <= crate::vfs::total_bytes(s),
    decreases s.len(),
{
    if s.len() > 0 {
        let d = s.drop_last();
        let e = s.last();
        lemma_plan_total_le_fs(d, rules);
        if spec_path_pruned(rules, e.path, e.node is Dir) {
            assert(spec_tar_plan(s, rules) =~= spec_tar_plan(d, rules));
        } else {
            assert(spec_tar_plan(s, rules) =~= spec_tar_plan(d, rules).push(entry_of_node(e)));
            let P = spec_tar_plan(d, rules).push(entry_of_node(e));
            assert(P.drop_last() =~= spec_tar_plan(d, rules));
            assert(P.last() == entry_of_node(e));
        }
    }
}

/// The tar round trip: creating a tar listing of one tree and extracting
/// it into a fresh tree with the same ignore rules and no quota reproduces
/// exactly the entries the ignore rules keep — path, kind, mode, mtime,
/// file contents and symlink targets all equal.
pub fn tar_round_trip(src: &ConfinedFs, dest: &mut ConfinedFs)
    requires
        src.wf(),
        old(dest).wf(),
        old(dest).view().len() == 0,
        old(dest).spec_limit() == 0,
        old(dest).rules_view() == src.rules_view(),
    ensures
        final(dest).wf(),
        forall|q: Seq<Seq<char>>|
            spec_find(final(dest).view(), q) == (match spec_find(src.view(), q) {
                Some(e) => if spec_path_pruned(src.rules_view(), q, e.node is Dir) {
                    Option::None
                } else {
                    Some(e)
                },
                Option::None => Option::None,
            }),
{
    let ghost s = src.view();
    let ghost rules = src.rules_view();
    let entries = src.tar_entries();
    proof {
        lemma_tar_plan_ok(s, rules);
        lemma_plan_total_le_fs(s, rules);
    }
    extract_entries(dest, &entries, false);
    proof {
        assert forall|q: Seq<Seq<char>>|
            spec_find(dest.view(), q) == (match spec_find(s, q) {
                Some(e) => if spec_path_pruned(rules, q, e.node is Dir) {
                    Option::None
                } else {
                    Some(e)
                },
                Option::None => Option::None,
            }) by {
            lemma_plan_vs_fs(s, rules, q);
            lemma_find_path(s, q);
            assert(spec_find(dest.view(), q) == expected_after(plan_view(entries@), q, false));
            if spec_find(s, q) is Some {
                let e = spec_find(s, q)->Some_0;
                if !spec_path_pruned(rules, q, e.node is Dir) {
                    assert(pfind(plan_view(entries@), q) == Some(entry_of_node(e)));
                    assert(applies(entry_of_node(e), false));
                    assert(node_of_kind(entry_of_node(e).kind) == e.node);
                    assert(EntryV {
                        path: entry_of_node(e).path,
                        node: node_of_kind(entry_of_node(e).kind),
                    } == e);
                }
            }
        };
    }
}

/// Modification times as zip stores them: two-second granularity.
pub open spec fn spec_dos_mtime(t: u64) -> u64 {
    (t - (t % 2)) as u64
}

pub fn dos_mtime(t: u64) -> (r: u64)
    ensures
        r == spec_dos_mtime(t),
{
    t - t % 2
}

/// The zip image of one listing entry: times truncated to the archive's
/// two-second resolution, everything else carried whole.
pub open spec fn zip_entry(e: ArchiveEntryV) -> ArchiveEntryV {
    ArchiveEntryV {
        absolute: e.absolute,
        path: e.path,
        kind: match e.kind {
            EntryKindV::Dir { mode, mtime } => EntryKindV::Dir {
                mode,
                mtime: spec_dos_mtime(mtime),
            },
            EntryKindV::File { mode, mtime, data } => EntryKindV::File {
                mode,
                mtime: spec_dos_mtime(mtime),
                data,
            },
            EntryKindV::Symlink { target_abs, target } => EntryKindV::Symlink {
                target_abs,
                target,
            },
            EntryKindV::Other => EntryKindV::Other,
        },
    }
}

pub open spec fn spec_zip_plan(s: Seq<EntryV>, rules: Seq<Seq<char>>) -> Seq<ArchiveEntryV> {
    spec_tar_plan(s, rules).map_values(|e: ArchiveEntryV| zip_entry(e))
}

/// What zip extraction leaves of a tree node: directories and files with
/// truncated times, symlinks only when their stored target is 1 to 2048
/// bytes long.
pub open spec fn zip_image(n: NodeV) -> Option<NodeV> {
    match n {
        NodeV::Dir { mode, mtime } => Some(NodeV::Dir { mode, mtime: spec_dos_mtime(mtime) }),
        NodeV::File { mode, mtime, data } => Some(
            NodeV::File { mode, mtime: spec_dos_mtime(mtime), data },
        ),
        NodeV::Symlink { target_abs, target } => if 1 <= sym_len(target_abs, target) <= 2048 {
            Some(NodeV::Symlink { target_abs, target })
        } else {
            Option::None
        },
    }
}

impl ConfinedFs {
    /// The zip listing: the tar walk with times truncated to zip's
    /// two-second resolution.
    pub fn zip_entries(&self) -> (r: Vec<ArchiveEntry>)
        requires
            self.wf(),
        ensures
            plan_view(r@) == spec_zip_plan(self.view(), self.rules_view()),
    {
        let base = self.tar_entries();
        zipify(&base)
    }
}

/// The zip listing of a well-formed tree is fit for extraction, and holds
/// the same bytes.
pub proof fn lemma_zip_plan_ok(s: Seq<EntryV>, rules: Seq<Seq<char>>)
    requires
        paths_clean(s),
        unique_paths(s),
        parents_closed(s),
    ensures
        plan_ok(spec_zip_plan(s, rules), rules),
        plan_total(spec_zip_plan(s, rules)) == plan_total(spec_tar_plan(s, rules)),
{
    lemma_tar_plan_ok(s, rules);
    let P = spec_tar_plan(s, rules);
    let Z = spec_zip_plan(s, rules);
    assert(Z.len() == P.len());
    assert(forall|b: int| 0 <= b < Z.len() ==> #[trigger] Z[b] == zip_entry(P[b]));
    assert forall|b: int|
        0 <= b < Z.len() implies clean_path(#[trigger] Z[b].path) && Z[b].path.len() >= 1
            && !Z[b].absolute && !(Z[b].kind is Other) && !spec_ignore_match(
            rules,
            spec_join(Z[b].path),
            Z[b].kind is Dir,
        ) by {
        assert((Z[b].kind is Dir) == (P[b].kind is Dir));
        assert(Z[b].path == P[b].path);
    };
    assert forall|b: int, k: int|
        0 <= b < Z.len() && 1 <= k < Z[b].path.len() implies exists|a: int|
        0 <= a < b && (#[trigger] Z[a].path) == (#[trigger] Z[b].path.subrange(0, k)) && Z[a].kind
            is Dir by {
        let a = choose|a: int|
            0 <= a < b && (#[trigger] P[a].path) == (#[trigger] P[b].path.subrange(0, k))
                && P[a].kind is Dir;
        assert(Z[a].path == P[a].path && (Z[a].kind is Dir));
        assert(Z[b].path.subrange(0, k) == P[b].path.subrange(0, k));
    };
    lemma_zip_total(P);
}

pub proof fn lemma_zip_total(P: Seq<ArchiveEntryV>)
    ensures
        plan_total(P.map_values(|e: ArchiveEntryV| zip_entry(e))) == plan_total(P),
    decreases P.len(),
{
    let Z = P.map_values(|e: ArchiveEntryV| zip_entry(e));
    if P.len() == 0 {
    } else {
        lemma_zip_total(P.drop_last());
        assert(Z.drop_last() =~= P.drop_last().map_values(|e: ArchiveEntryV| zip_entry(e)));
        assert(Z.last() == zip_entry(P.last()));
    }
}

/// The zip round trip: creating a zip listing of one tree and extracting
/// it under zip rules into a fresh tree with the same ignore rules and no
/// quota reproduces the entries the ignore rules keep, with modification
/// times at zip's two-second resolution and symlinks only when their
/// stored target is 1 to 2048 bytes long.
pub fn zip_round_trip(src: &ConfinedFs, dest: &mut ConfinedFs)
    requires
        src.wf(),
        old(dest).wf(),
        old(dest).view().len() == 0,
        old(dest).spec_limit() == 0,
        old(dest).rules_view() == src.rules_view(),
    ensures
        final(dest).wf(),
        forall|q: Seq<Seq<char>>|
            spec_find(final(dest).view(), q) == (match spec_find(src.view(), q) {
                Some(e) => if spec_path_pruned(src.rules_view(), q, e.node is Dir) {
                    Option::None
                } else {
                    match zip_image(e.node) {
                        Some(n) => Some(EntryV { path: q, node: n }),
                        Option::None => Option::None,
                    }
                },
                Option::None => Option::None,
            }),
{
    let ghost s = src.view();
    let ghost rules = src.rules_view();
    let entries = src.zip_entries();
    proof {
        lemma_zip_plan_ok(s, rules);
        lemma_plan_total_le_fs(s, rules);
    }
    extract_entries(dest, &entries, true);
    proof {
        let Z = spec_zip_plan(s, rules);
        let P = spec_tar_plan(s, rules);
        assert forall|q: Seq<Seq<char>>|
            spec_find(dest.view(), q) == (match spec_find(s, q) {
                Some(e) => if spec_path_pruned(rules, q, e.node is Dir) {
                    Option::None
                } else {
                    match zip_image(e.node) {
                        Some(n) => Some(EntryV { path: q, node: n }),
                        Option::None => Option::None,
                    }
                },
                Option::None => Option::None,
            }) by {
            lemma_plan_vs_fs(s, rules, q);
            lemma_find_path(s, q);
            assert(spec_find(dest.view(), q) == expected_after(Z, q, true));
            lemma_zip_pfind(P, q);
            if spec_find(s, q) is Some {
                let e = spec_find(s, q)->Some_0;
                if !spec_path_pruned(rules, q, e.node is Dir) {
                    assert(pfind(P, q) == Some(entry_of_node(e)));
                    assert(pfind(Z, q) == Some(zip_entry(entry_of_node(e))));
                }
            }
        };
    }
}

/// Looking up the zip listing is looking up the tar listing, zipped.
pub proof fn lemma_zip_pfind(P: Seq<ArchiveEntryV>, q: Seq<Seq<char>>)
    ensures
        pfind(P.map_values(|e: ArchiveEntryV| zip_entry(e)), q) == match pfind(P, q) {
            Some(e) => Some(zip_entry(e)),
            Option::None => Option::None,
        },
    decreases P.len(),
{
    let Z = P.map_values(|e: ArchiveEntryV| zip_entry(e));
    if P.len() > 0 {
        assert(Z[0] == zip_entry(P[0]));
        assert(Z[0].path == P[0].path);
        if P[0].path != q {
            assert(Z.subrange(1, Z.len() as int) =~= P.subrange(1, P.len() as int).map_values(
                |e: ArchiveEntryV| zip_entry(e),
            ));
            lemma_zip_pfind(P.subrange(1, P.len() as int), q);
        }
    }
}

/// Is `a` a leading run of `p`? The empty path is a prefix of everything:
/// a source naming the base selects the whole tree.
pub open spec fn spec_is_prefix(a: Seq<Seq<char>>, p: Seq<Seq<char>>) -> bool {
    a.len() <= p.len() && p.subrange(0, a.len() as int) == a
}

/// A path is selected when some source is a prefix of it: each source
/// names itself and everything below it.
pub open spec fn spec_selected(sources: Seq<Seq<Seq<char>>>, p: Seq<Seq<char>>) -> bool {
    exists|k: int| 0 <= k < sources.len() && spec_is_prefix(#[trigger] sources[k], p)
}

pub open spec fn pvp(v: Seq<Vec<String>>) -> Seq<Seq<Seq<char>>> {
    v.map_values(|g: Vec<String>| pv(g@))
}

fn is_path_prefix(a: &Vec<String>, p: &Vec<String>) -> (r: bool)
    ensures
        r == spec_is_prefix(pv(a@), pv(p@)),
{
    if a.len() > p.len() {
        return false;
    }
    let mut i: usize = 0;
    while i < a.len()
        invariant
            0 <= i <= a@.len(),
            a@.len() <= p@.len(),
            forall|m: int| 0 <= m < i ==> pv(p@)[m] == pv(a@)[m],
        decreases a@.len() - i,
    {
        if !p[i].eq(&a[i]) {
            assert(pv(p@).subrange(0, pv(a@).len() as int)[i as int] != pv(a@)[i as int]);
            return false;
        }
        i += 1;
    }
    proof {
        assert(pv(p@).subrange(0, pv(a@).len() as int) =~= pv(a@));
    }
    true
}

fn path_selected(sources: &Vec<Vec<String>>, p: &Vec<String>) -> (r: bool)
    ensures
        r == spec_selected(pvp(sources@), pv(p@)),
{
    let mut k: usize = 0;
    while k < sources.len()
        invariant
            0 <= k <= sources@.len(),
            forall|w: int| 0 <= w < k ==> !spec_is_prefix(#[trigger] pvp(sources@)[w], pv(p@)),
        decreases sources@.len() - k,
    {
        if is_path_prefix(&sources[k], p) {
            proof {
                assert(pvp(sources@)[k as int] == pv(sources@[k as int]@));
            }
            return true;
        }
        k += 1;
    }
    false
}

/// The tar listing of the selected part of a tree: the entries some
/// source is a prefix of, in stored order, pruned entries left out.
pub open spec fn spec_tar_plan_from(
    s: Seq<EntryV>,
    rules: Seq<Seq<char>>,
    sources: Seq<Seq<Seq<char>>>,
) -> Seq<ArchiveEntryV>
    decreases s.len(),
{
    if s.len() == 0 {
        Seq::empty()
    } else {
        spec_tar_plan_from(s.drop_last(), rules, sources) + if spec_selected(
            sources,
            s.last().path,
        ) && !spec_path_pruned(rules, s.last().path, s.last().node is Dir) {
            seq![entry_of_node(s.last())]
        } else {
            Seq::empty()
        }
    }
}

pub open spec fn spec_zip_plan_from(
    s: Seq<EntryV>,
    rules: Seq<Seq<char>>,
    sources: Seq<Seq<Seq<char>>>,
) -> Seq<ArchiveEntryV> {
    spec_tar_plan_from(s, rules, sources).map_values(|e: ArchiveEntryV| zip_entry(e))
}

impl ConfinedFs {
    /// The tar listing of the sources the caller picked: each source
    /// selects itself and its subtree; ignored entries and everything
    /// under an ignored directory are left out.
    pub fn tar_entries_from(&self, sources: &Vec<Vec<String>>) -> (r: Vec<ArchiveEntry>)
        requires
            self.wf(),
        ensures
            plan_view(r@) == spec_tar_plan_from(self.view(), self.rules_view(), pvp(sources@)),
    {
        let ghost s = self.view();
        let ghost rules = self.rules_view();
        let ghost sv = pvp(sources@);
        let listing = self.walk();
        let mut r: Vec<ArchiveEntry> = Vec::new();
        let mut i: usize = 0;
        proof {
            assert(s.subrange(0, 0) =~= Seq::<EntryV>::empty());
            assert(plan_view(r@) =~= Seq::<ArchiveEntryV>::empty());
        }
        while i < listing.len()
            invariant
                self.wf(),
                s == self.view(),
                rules == self.rules_view(),
                sv == pvp(sources@),
                listing@.len() == s.len(),
                forall|j: int|
                    0 <= j < listing@.len() ==> (#[trigger] listing@[j]).0 == (s[j].node is Dir)
                        && pv(listing@[j].1@) == s[j].path,
                0 <= i <= s.len(),
                plan_view(r@) == spec_tar_plan_from(s.subrange(0, i as int), rules, sv),
            decreases listing@.len() - i,
        {
            let ghost prev = s.subrange(0, i as int);
            let is_dir = listing[i].0;
            let selected = path_selected(sources, &listing[i].1);
            let pruned = self.path_pruned_exec(&listing[i].1, is_dir);
            if selected && !pruned {
                let node_entry = self.entry_at(i, Ghost(s));
                r.push(node_entry);
            }
            proof {
                assert(s.subrange(0, i + 1).drop_last() =~= prev);
                assert(s.subrange(0, i + 1).last() == s[i as int]);
                if selected && !pruned {
                    assert(plan_view(r@) =~= spec_tar_plan_from(prev, rules, sv)
                        + seq![entry_of_node(s[i as int])]);
                } else {
                    assert(plan_view(r@) =~= spec_tar_plan_from(prev, rules, sv) + Seq::<
                        ArchiveEntryV,
                    >::empty());
                }
            }
            i += 1;
        }
        proof {
            assert(s.subrange(0, s.len() as int) =~= s);
        }
        r
    }

    /// The zip listing of the sources the caller picked, with times at
    /// zip's two-second resolution.
    pub fn zip_entries_from(&self, sources: &Vec<Vec<String>>) -> (r: Vec<ArchiveEntry>)
        requires
            self.wf(),
        ensures
            plan_view(r@) == spec_zip_plan_from(self.view(), self.rules_view(), pvp(sources@)),
    {
        let base = self.tar_entries_from(sources);
        zipify(&base)
    }
}

/// A listing with every time truncated to zip's two-second resolution.
fn zipify(base: &Vec<ArchiveEntry>) -> (r: Vec<ArchiveEntry>)
    ensures
        plan_view(r@) == plan_view(base@).map_values(|e: ArchiveEntryV| zip_entry(e)),
{
    let ghost P = plan_view(base@);
    let mut r: Vec<ArchiveEntry> = Vec::new();
    let mut i: usize = 0;
    while i < base.len()
        invariant
            0 <= i <= base@.len(),
            P == plan_view(base@),
            r@.len() == i,
            forall|j: int| 0 <= j < i ==> av(#[trigger] r@[j]) == zip_entry(P[j]),
        decreases base@.len() - i,
    {
        let e = &base[i];
        proof {
            assert(av(base@[i as int]) == P[i as int]);
        }
        let kind = match &e.kind {
            EntryKind::Dir { mode, mtime } => EntryKind::Dir {
                mode: *mode,
                mtime: dos_mtime(*mtime),
            },
            EntryKind::File { mode, mtime, data } => EntryKind::File {
                mode: *mode,
                mtime: dos_mtime(*mtime),
                data: clone_bytes(data),
            },
            EntryKind::Symlink { target_abs, target } => EntryKind::Symlink {
                target_abs: *target_abs,
                target: clone_path(target),
            },
            EntryKind::Other => EntryKind::Other,
        };
        r.push(ArchiveEntry { absolute: e.absolute, path: clone_path(&e.path), kind });
        i += 1;
    }
    proof {
        assert(plan_view(r@) =~= P.map_values(|e: ArchiveEntryV| zip_entry(e)));
    }
    r
}

/// The selected listing looked up by path is the tree looked up by path,
/// with unselected and pruned entries gone.
pub proof fn lemma_plan_vs_fs_from(
    s: Seq<EntryV>,
    rules: Seq<Seq<char>>,
    sources: Seq<Seq<Seq<char>>>,
    q: Seq<Seq<char>>,
)
    requires
        unique_paths(s),
    ensures
        pfind(spec_tar_plan_from(s, rules, sources), q) == match spec_find(s, q) {
            Some(e) => if spec_selected(sources, q) && !spec_path_pruned(rules, q, e.node is Dir) {
                Some(entry_of_node(e))
            } else {
                Option::None
            },
            Option::None => Option::None,
        },
    decreases s.len(),
{
    if s.len() == 0 {
    } else {
        let d = s.drop_last();
        let e = s.last();
        assert(unique_paths(d)) by {
            assert(forall|a: int, b: int| 0 <= a < b < d.len() ==> d[a] == s[a] && d[b] == s[b]);
        };
        lemma_plan_vs_fs_from(d, rules, sources, q);
        lemma_find_path(s, q);
        lemma_find_path(d, q);
        assert(s =~= d.push(e));
        lemma_find_push(d, e, q);
        if spec_find(d, q) is Some && q == e.path {
            crate::vfs::lemma_find_some_index(d, q);
            let i = choose|i: int|
                0 <= i < d.len() && #[trigger] d[i] == spec_find(d, q)->Some_0 && d[i].path == q;
            assert(s[i] == d[i] && s[s.len() - 1] == e);
            assert(false);
        }
        if spec_selected(sources, e.path) && !spec_path_pruned(rules, e.path, e.node is Dir) {
            assert(spec_tar_plan_from(s, rules, sources) =~= spec_tar_plan_from(
                d,
                rules,
                sources,
            ).push(entry_of_node(e)));
            lemma_pfind_push(spec_tar_plan_from(d, rules, sources), entry_of_node(e), q);
        } else {
            assert(spec_tar_plan_from(s, rules, sources) =~= spec_tar_plan_from(d, rules, sources));
        }
    }
}

/// Sources of at most one component: the whole-base source and top-level
/// names. Their selections are closed upward, so the selected listing
/// still carries every ancestor directory of what it holds.
pub open spec fn top_level_sources(sources: Seq<Seq<Seq<char>>>) -> bool {
    forall|k: int| 0 <= k < sources.len() ==> (#[trigger] sources[k]).len() <= 1
}

pub proof fn lemma_selected_prefix(sources: Seq<Seq<Seq<char>>>, p: Seq<Seq<char>>, j: int)
    requires
        top_level_sources(sources),
        spec_selected(sources, p),
        1 <= j <= p.len(),
    ensures
        spec_selected(sources, p.subrange(0, j)),
{
    let k = choose|k: int| 0 <= k < sources.len() && spec_is_prefix(#[trigger] sources[k], p);
    assert(sources[k].len() <= 1 <= j);
    assert(p.subrange(0, j).subrange(0, sources[k].len() as int) =~= p.subrange(
        0,
        sources[k].len() as int,
    ));
    assert(spec_is_prefix(sources[k], p.subrange(0, j)));
}

/// The selected tar listing of a well-formed tree is fit for extraction,
/// provided the sources are top-level.
pub proof fn lemma_tar_plan_from_ok(
    s: Seq<EntryV>,
    rules: Seq<Seq<char>>,
    sources: Seq<Seq<Seq<char>>>,
)
    requires
        paths_clean(s),
        unique_paths(s),
        parents_closed(s),
        top_level_sources(sources),
    ensures
        plan_ok(spec_tar_plan_from(s, rules, sources), rules),
    decreases s.len(),
{
    reveal(spec_path_pruned);
    if s.len() == 0 {
    } else {
        let d = s.drop_last();
        let e = s.last();
        let P = spec_tar_plan_from(s, rules, sources);
        let Pd = spec_tar_plan_from(d, rules, sources);
        assert(paths_clean(d) && unique_paths(d) && parents_closed(d)) by {
            assert(forall|a: int| 0 <= a < d.len() ==> d[a] == s[a]);
            assert forall|i: int|
                0 <= i < d.len() && (#[trigger] d[i].path).len() > 1 implies exists|j: int|
                0 <= j < i && (#[trigger] d[j].path) == d[i].path.drop_last() && d[j].node
                    is Dir by {
                let j = choose|j: int|
                    0 <= j < i && (#[trigger] s[j].path) == s[i].path.drop_last() && s[j].node
                        is Dir;
                assert(d[j] == s[j]);
            };
        };
        lemma_tar_plan_from_ok(d, rules, sources);
        if !(spec_selected(sources, e.path) && !spec_path_pruned(rules, e.path, e.node is Dir)) {
            assert(P =~= Pd);
        } else {
            assert(P =~= Pd.push(entry_of_node(e)));
            let ne = entry_of_node(e);
            let b = Pd.len() as int;
            assert(P[b] == ne);
            assert(forall|a: int| 0 <= a < b ==> P[a] == Pd[a]);
            assert(clean_path(ne.path) && ne.path.len() >= 1) by {
                assert(s[s.len() - 1] == e);
            };
            assert(!spec_ignore_match(rules, spec_join(ne.path), ne.kind is Dir)) by {
                assert((ne.kind is Dir) == (e.node is Dir));
            };
            assert(spec_find(d, e.path) is None) by {
                if spec_find(d, e.path) is Some {
                    crate::vfs::lemma_find_some_index(d, e.path);
                    let i = choose|i: int|
                        0 <= i < d.len() && #[trigger] d[i] == spec_find(d, e.path)->Some_0
                            && d[i].path == e.path;
                    assert(s[i] == d[i] && s[s.len() - 1] == e);
                }
            };
            lemma_plan_vs_fs_from(d, rules, sources, e.path);
            assert(pfind(Pd, e.path) is None);
            lemma_pfind_none(Pd, e.path);
            assert forall|a: int, b2: int| 0 <= a < b2 < P.len() implies (#[trigger] P[a].path)
                != (#[trigger] P[b2].path) by {
                if b2 == b {
                    assert(Pd[a].path != e.path);
                }
            };
            assert forall|k: int| 1 <= k < ne.path.len() implies exists|a: int|
                0 <= a < b && (#[trigger] P[a].path) == (#[trigger] ne.path.subrange(0, k))
                    && P[a].kind is Dir by {
                lemma_fs_ancestors(s, s.len() - 1, k);
                let j = choose|j: int|
                    0 <= j < s.len() - 1 && (#[trigger] s[j].path) == e.path.subrange(0, k)
                        && s[j].node is Dir;
                let qp = e.path.subrange(0, k);
                assert(d[j] == s[j]);
                assert(spec_find(d, qp) is Some) by {
                    if spec_find(d, qp) is None {
                        lemma_find_none(d, qp);
                    }
                };
                crate::vfs::lemma_find_some_index(d, qp);
                let w = choose|w: int|
                    0 <= w < d.len() && #[trigger] d[w] == spec_find(d, qp)->Some_0 && d[w].path
                        == qp;
                assert(w == j) by {
                    if w != j {
                        assert(d[w].path == d[j].path);
                    }
                };
                assert(spec_find(d, qp)->Some_0.node is Dir);
                assert(!spec_path_pruned(rules, qp, true)) by {
                    if spec_path_pruned(rules, qp, true) {
                        lemma_pruned_prefix(rules, e.path, k, e.node is Dir);
                    }
                };
                lemma_selected_prefix(sources, e.path, k);
                lemma_plan_vs_fs_from(d, rules, sources, qp);
                assert(pfind(Pd, qp) is Some);
                lemma_pfind_some_index(Pd, qp);
                let a = choose|a: int|
                    0 <= a < Pd.len() && #[trigger] Pd[a] == pfind(Pd, qp)->Some_0 && Pd[a].path
                        == qp;
                assert(P[a] == Pd[a]);
                assert(P[a].kind is Dir);
            };
            assert forall|b2: int, k: int|
                0 <= b2 < P.len() && 1 <= k < P[b2].path.len() implies exists|a: int|
                0 <= a < b2 && (#[trigger] P[a].path) == (#[trigger] P[b2].path.subrange(0, k))
                    && P[a].kind is Dir by {
                if b2 < b {
                    let a = choose|a: int|
                        0 <= a < b2 && (#[trigger] Pd[a].path) == Pd[b2].path.subrange(0, k)
                            && Pd[a].kind is Dir;
                    assert(P[a] == Pd[a]);
                }
            };
        }
    }
}

pub proof fn lemma_plan_total_le_fs_from(
    s: Seq<EntryV>,
    rules: Seq<Seq<char>>,
    sources: Seq<Seq<Seq<char>>>,
)
    ensures
        plan_total(spec_tar_plan_from(s, rules, sources)) <= crate::vfs::total_bytes(s),
    decreases s.len(),
{
    if s.len() > 0 {
        let d = s.drop_last();
        let e = s.last();
        lemma_plan_total_le_fs_from(d, rules, sources);
        if spec_selected(sources, e.path) && !spec_path_pruned(rules, e.path, e.node is Dir) {
            assert(spec_tar_plan_from(s, rules, sources) =~= spec_tar_plan_from(
                d,
                rules,
                sources,
            ).push(entry_of_node(e)));
            let P = spec_tar_plan_from(d, rules, sources).push(entry_of_node(e));
            assert(P.drop_last() =~= spec_tar_plan_from(d, rules, sources));
            assert(P.last() == entry_of_node(e));
        } else {
            assert(spec_tar_plan_from(s, rules, sources) =~= spec_tar_plan_from(d, rules, sources));
        }
    }
}

/// A fit listing stays fit, and holds the same bytes, after zip's time
/// truncation.
pub proof fn lemma_zipify_ok(P: Seq<ArchiveEntryV>, rules: Seq<Seq<char>>)
    requires
        plan_ok(P, rules),
    ensures
        plan_ok(P.map_values(|e: ArchiveEntryV| zip_entry(e)), rules),
        plan_total(P.map_values(|e: ArchiveEntryV| zip_entry(e))) == plan_total(P),
{
    let Z = P.map_values(|e: ArchiveEntryV| zip_entry(e));
    assert(Z.len() == P.len());
    assert(forall|b: int| 0 <= b < Z.len() ==> #[trigger] Z[b] == zip_entry(P[b]));
    assert forall|b: int|
        0 <= b < Z.len() implies clean_path(#[trigger] Z[b].path) && Z[b].path.len() >= 1
            && !Z[b].absolute && !(Z[b].kind is Other) && !spec_ignore_match(
            rules,
            spec_join(Z[b].path),
            Z[b].kind is Dir,
        ) by {
        assert((Z[b].kind is Dir) == (P[b].kind is Dir));
        assert(Z[b].path == P[b].path);
    };
    assert forall|b: int, k: int|
        0 <= b < Z.len() && 1 <= k < Z[b].path.len() implies exists|a: int|
        0 <= a < b && (#[trigger] Z[a].path) == (#[trigger] Z[b].path.subrange(0, k)) && Z[a].kind
            is Dir by {
        let a = choose|a: int|
            0 <= a < b && (#[trigger] P[a].path) == (#[trigger] P[b].path.subrange(0, k))
                && P[a].kind is Dir;
        assert(Z[a].path == P[a].path && (Z[a].kind is Dir));
        assert(Z[b].path.subrange(0, k) == P[b].path.subrange(0, k));
    };
    lemma_zip_total(P);
}

/// The tar round trip for caller-chosen sources: archiving the selected
/// part of one tree and extracting it into a fresh tree with the same
/// ignore rules and no quota reproduces exactly the selected entries the
/// ignore rules keep. The sources must be top-level names (or the base
/// itself): a nested source's archive names no ancestor directories, and
/// restoring one recreates those ancestors outside this model.
pub fn tar_round_trip_from(src: &ConfinedFs, dest: &mut ConfinedFs, sources: &Vec<Vec<String>>)
    requires
        src.wf(),
        old(dest).wf(),
        old(dest).view().len() == 0,
        old(dest).spec_limit() == 0,
        old(dest).rules_view() == src.rules_view(),
        top_level_sources(pvp(sources@)),
    ensures
        final(dest).wf(),
        forall|q: Seq<Seq<char>>|
            spec_find(final(dest).view(), q) == (match spec_find(src.view(), q) {
                Some(e) => if spec_selected(pvp(sources@), q) && !spec_path_pruned(
                    src.rules_view(),
                    q,
                    e.node is Dir,
                ) {
                    Some(e)
                } else {
                    Option::None
                },
                Option::None => Option::None,
            }),
{
    let ghost s = src.view();
    let ghost rules = src.rules_view();
    let ghost sv = pvp(sources@);
    let entries = src.tar_entries_from(sources);
    proof {
        lemma_tar_plan_from_ok(s, rules, sv);
        lemma_plan_total_le_fs_from(s, rules, sv);
    }
    extract_entries(dest, &entries, false);
    proof {
        assert forall|q: Seq<Seq<char>>|
            spec_find(dest.view(), q) == (match spec_find(s, q) {
                Some(e) => if spec_selected(sv, q) && !spec_path_pruned(rules, q, e.node is Dir) {
                    Some(e)
                } else {
                    Option::None
                },
                Option::None => Option::None,
            }) by {
            lemma_plan_vs_fs_from(s, rules, sv, q);
            lemma_find_path(s, q);
            assert(spec_find(dest.view(), q) == expected_after(plan_view(entries@), q, false));
            if spec_find(s, q) is Some {
                let e = spec_find(s, q)->Some_0;
                if spec_selected(sv, q) && !spec_path_pruned(rules, q, e.node is Dir) {
                    assert(pfind(plan_view(entries@), q) == Some(entry_of_node(e)));
                    assert(applies(entry_of_node(e), false));
                    assert(node_of_kind(entry_of_node(e).kind) == e.node);
                    assert(EntryV {
                        path: entry_of_node(e).path,
                        node: node_of_kind(entry_of_node(e).kind),
                    } == e);
                }
            }
        };
    }
}

/// The zip round trip for caller-chosen sources, under the same top-level
/// condition, with times at zip's two-second resolution and symlinks only
/// at a stored size of 1 to 2048.
pub fn zip_round_trip_from(src: &ConfinedFs, dest: &mut ConfinedFs, sources: &Vec<Vec<String>>)
    requires
        src.wf(),
        old(dest).wf(),
        old(dest).view().len() == 0,
        old(dest).spec_limit() == 0,
        old(dest).rules_view() == src.rules_view(),
        top_level_sources(pvp(sources@)),
    ensures
        final(dest).wf(),
        forall|q: Seq<Seq<char>>|
            spec_find(final(dest).view(), q) == (match spec_find(src.view(), q) {
                Some(e) => if spec_selected(pvp(sources@), q) && !spec_path_pruned(
                    src.rules_view(),
                    q,
                    e.node is Dir,
                ) {
                    match zip_image(e.node) {
                        Some(n) => Some(EntryV { path: q, node: n }),
                        Option::None => Option::None,
                    }
                } else {
                    Option::None
                },
                Option::None => Option::None,
            }),
{
    let ghost s = src.view();
    let ghost rules = src.rules_view();
    let ghost sv = pvp(sources@);
    let entries = src.zip_entries_from(sources);
    proof {
        lemma_tar_plan_from_ok(s, rules, sv);
        lemma_zipify_ok(spec_tar_plan_from(s, rules, sv), rules);
        lemma_plan_total_le_fs_from(s, rules, sv);
    }
    extract_entries(dest, &entries, true);
    proof {
        let P = spec_tar_plan_from(s, rules, sv);
        let Z = spec_zip_plan_from(s, rules, sv);
        assert forall|q: Seq<Seq<char>>|
            spec_find(dest.view(), q) == (match spec_find(s, q) {
                Some(e) => if spec_selected(sv, q) && !spec_path_pruned(rules, q, e.node is Dir) {
                    match zip_image(e.node) {
                        Some(n) => Some(EntryV { path: q, node: n }),
                        Option::None => Option::None,
                    }
                } else {
                    Option::None
                },
                Option::None => Option::None,
            }) by {
            lemma_plan_vs_fs_from(s, rules, sv, q);
            lemma_find_path(s, q);
            assert(spec_find(dest.view(), q) == expected_after(Z, q, true));
            lemma_zip_pfind(P, q);
            if spec_find(s, q) is Some {
                let e = spec_find(s, q)->Some_0;
                if spec_selected(sv, q) && !spec_path_pruned(rules, q, e.node is Dir) {
                    assert(pfind(P, q) == Some(entry_of_node(e)));
                    assert(pfind(Z, q) == Some(zip_entry(entry_of_node(e))));
                }
            }
        };
    }
}

} // verus!



