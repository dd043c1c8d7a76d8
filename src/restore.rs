//! Restore planning: which scanned containers were generated by this tool,
//! and what to do with each so that the directory returns to its state
//! before generation.
use crate::chain::{batch_plans, ordinal, ordinal_of, PatchChain, RemovalPlan};
use crate::chunk::{views, ChunkName, Part};
use crate::chunk_text::{has_prefix, parse_name, starts_with, ChunkNameError};
use crate::metadata::PakMetadata;
use vstd::multiset::Multiset;
use vstd::prelude::*;

verus! {

/// How a directory entry is treated during a scan.
#[derive(Debug, Clone, Copy, PartialEq, Eq, Structural)]
pub enum FileKind {
    /// A `.pak.backup` file kept from a full-package replacement.
    Backup,
    /// A `re_chunk_*.pak` container.
    Container,
    /// Anything else.
    Other,
}

pub open spec fn has_suffix(s: Seq<char>, p: Seq<char>) -> bool {
    p.len() <= s.len() && s.subrange(s.len() - p.len(), s.len() as int) == p
}

pub(crate) fn ends_with(s: &str, p: &str) -> (r: bool)
    ensures
        r == has_suffix(s@, p@),
{
    let n = s.unicode_len();
    let m = p.unicode_len();
    if m > n {
        return false;
    }
    let off = n - m;
    let mut i: usize = 0;
    while i < m
        invariant
            n == s@.len(),
            m == p@.len(),
            off == n - m,
            i <= m,
            forall|j: int| 0 <= j < i ==> s@[off + j] == p@[j],
        decreases m - i,
    {
        if s.get_char(off + i) != p.get_char(i) {
            assert(s@.subrange(off as int, n as int)[i as int] != p@[i as int]);
            return false;
        }
        i += 1;
    }
    assert(s@.subrange(off as int, n as int) =~= p@);
    true
}

pub open spec fn file_kind(name: Seq<char>) -> FileKind {
    if has_suffix(name, ".pak.backup"@) {
        FileKind::Backup
    } else if has_suffix(name, ".pak"@) && has_prefix(name, "re_chunk_"@) {
        FileKind::Container
    } else {
        FileKind::Other
    }
}

/// Classifies a directory entry by its file name.
pub fn classify_file(name: &str) -> (r: FileKind)
    ensures
        r == file_kind(name@),
{
    if ends_with(name, ".pak.backup") {
        FileKind::Backup
    } else if ends_with(name, ".pak") && starts_with(name, "re_chunk_") {
        FileKind::Container
    } else {
        FileKind::Other
    }
}

/// The name of the backup kept for a replaced container: `<name>.backup`.
pub fn backup_name(name: &str) -> (r: String)
    ensures
        r@ == name@ + ".backup"@,
{
    let mut r = String::from_str(name);
    r.append(".backup");
    r
}

/// The scratch output of a replacement, renamed into place when complete:
/// `<name>.temp`.
pub fn temp_name(name: &str) -> (r: String)
    ensures
        r@ == name@ + ".temp"@,
{
    let mut r = String::from_str(name);
    r.append(".temp");
    r
}

/// How a scanned container takes part in a restore.
#[derive(Debug, Clone, Copy, PartialEq, Eq, Structural)]
pub enum RestoreKind {
    /// Generated in full-package mode: put the backup back in its place.
    FullRestore,
    /// Generated as a patch: remove it.
    PatchRemoval,
    /// Not generated by this tool.
    NotGenerated,
}

pub open spec fn restore_kind_of(meta: Option<PakMetadata>) -> RestoreKind {
    match meta {
        None => RestoreKind::NotGenerated,
        Some(m) => if m.is_full_package {
            RestoreKind::FullRestore
        } else {
            RestoreKind::PatchRemoval
        },
    }
}

/// The restore kind of a container from the provenance record read from it
/// (`None` when it has none or could not be read).
pub fn restore_kind(meta: Option<PakMetadata>) -> (r: RestoreKind)
    ensures
        r == restore_kind_of(meta),
{
    match meta {
        None => RestoreKind::NotGenerated,
        Some(m) => if m.is_full_package() {
            RestoreKind::FullRestore
        } else {
            RestoreKind::PatchRemoval
        },
    }
}

/// A container found by a scan, with the provenance record read from it
/// (`None` when it has none or could not be opened).
pub struct ScannedFile {
    pub name: String,
    pub metadata: Option<PakMetadata>,
}

/// What becomes of a full-package container.
#[derive(Debug, Clone, Copy, PartialEq, Eq, Structural)]
pub enum RestoreAction {
    /// Delete the container and rename its backup to its name.
    RestoreBackup,
    /// No backup is there: warn and leave the container.
    MissingBackup,
}

/// A directory seen as file names mapped to contents, after the
/// `RestoreBackup` action for `name`: the container deleted, then its
/// backup renamed to the container's name.
pub open spec fn after_restore_backup(dir: Map<Seq<char>, Seq<u8>>, name: Seq<char>) -> Map<
    Seq<char>,
    Seq<u8>,
> {
    let backup = name + ".backup"@;
    dir.remove(name).remove(backup).insert(name, dir[backup])
}

/// Restoring a full-package container whose backup is present leaves no
/// backup, gives the container's name the backup's content, and touches no
/// other file.
pub proof fn lemma_restore_backup(dir: Map<Seq<char>, Seq<u8>>, name: Seq<char>)
    requires
        dir.contains_key(name + ".backup"@),
    ensures
        !after_restore_backup(dir, name).contains_key(name + ".backup"@),
        after_restore_backup(dir, name).contains_key(name),
        after_restore_backup(dir, name)[name] == dir[name + ".backup"@],
        forall|f: Seq<char>|
            f != name && f != name + ".backup"@ ==> (after_restore_backup(dir, name).contains_key(f)
                == dir.contains_key(f) && (dir.contains_key(f) ==> #[trigger] after_restore_backup(
                dir,
                name,
            )[f] == dir[f])),
{
    let backup = name + ".backup"@;
    assert(backup.len() > name.len()) by {
        reveal_strlit(".backup");
    }
    assert(backup != name);
}

/// One full-package restore: the index of the scanned file and the action.
#[derive(Debug, Clone, Copy, PartialEq, Eq, Structural)]
pub struct RestoreStep {
    pub file: usize,
    pub action: RestoreAction,
}

/// One patch removal: the index of the scanned file and the plan.
#[derive(Debug, Clone, Copy, PartialEq, Eq, Structural)]
pub struct RemovalStep {
    pub file: usize,
    pub plan: RemovalPlan,
}

/// What a restore run does: the full-package restores in scan order, then
/// the patch removals from the highest patch down.
pub struct RestorePlan {
    pub restores: Vec<RestoreStep>,
    pub removals: Vec<RemovalStep>,
}

pub open spec fn name_views(v: Seq<String>) -> Seq<Seq<char>> {
    v.map_values(|s: String| s@)
}

/// The chunk names of the scanned files whose names parse, in scan order.
pub open spec fn scanned_chain(files: Seq<ScannedFile>) -> Seq<Seq<Part>>
    decreases files.len(),
{
    if files.len() == 0 {
        Seq::empty()
    } else {
        let init = scanned_chain(files.drop_last());
        match parse_name(files.last().name@) {
            Ok(p) => init.push(p),
            Err(_) => init,
        }
    }
}

/// The restores of the full-package files, in scan order.
pub open spec fn restore_steps(files: Seq<ScannedFile>, backups: Seq<Seq<char>>) -> Seq<RestoreStep>
    decreases files.len(),
{
    if files.len() == 0 {
        Seq::empty()
    } else {
        let init = restore_steps(files.drop_last(), backups);
        let f = files.last();
        if restore_kind_of(f.metadata) == RestoreKind::FullRestore {
            init.push(
                RestoreStep {
                    file: (files.len() - 1) as usize,
                    action: if backups.contains(f.name@ + ".backup"@) {
                        RestoreAction::RestoreBackup
                    } else {
                        RestoreAction::MissingBackup
                    },
                },
            )
        } else {
            init
        }
    }
}

/// A generated patch whose name parses.
pub open spec fn is_patch_target(f: ScannedFile) -> bool {
    restore_kind_of(f.metadata) == RestoreKind::PatchRemoval && parse_name(f.name@) is Ok
}

/// The indices of the patch targets, in scan order.
pub open spec fn patch_targets(files: Seq<ScannedFile>) -> Seq<usize>
    decreases files.len(),
{
    if files.len() == 0 {
        Seq::empty()
    } else {
        let init = patch_targets(files.drop_last());
        if is_patch_target(files.last()) {
            init.push((files.len() - 1) as usize)
        } else {
            init
        }
    }
}

/// The chunk name of scanned file `k`.
pub open spec fn target_name(files: Seq<ScannedFile>, k: usize) -> Seq<Part> {
    parse_name(files[k as int].name@)->Ok_0
}

/// The chunk name held for index `k`.
pub open spec fn key_of(keys: Seq<Option<ChunkName>>, k: usize) -> Seq<Part> {
    keys[k as int]->Some_0@
}

/// The patch ordinal of a name as a number: its ordinal, or 0 for none.
pub open spec fn ordinal_rank(name: Seq<Part>) -> nat {
    match ordinal(name) {
        Some(o) => o as nat,
        None => 0,
    }
}

/// Indices in descending order of the ordinals of their keys.
pub open spec fn sorted_desc(keys: Seq<Option<ChunkName>>, idx: Seq<usize>) -> bool {
    forall|i: int, j: int|
        0 <= i < j < idx.len() ==> ordinal_rank(key_of(keys, idx[i])) >= ordinal_rank(
            key_of(keys, idx[j]),
        )
}

pub open spec fn keyed(keys: Seq<Option<ChunkName>>, idx: Seq<usize>) -> bool {
    forall|i: int| 0 <= i < idx.len() ==> #[trigger] idx[i] < keys.len() && keys[idx[i] as int] is Some
}

fn rank_of(keys: &Vec<Option<ChunkName>>, k: usize) -> (r: u32)
    requires
        k < keys.len(),
        keys@[k as int] is Some,
    ensures
        r as nat == ordinal_rank(key_of(keys@, k)),
{
    match &keys[k] {
        Some(c) => match ordinal_of(c) {
            Some(o) => o,
            None => 0,
        },
        None => 0,
    }
}

/// Orders indices from the highest patch ordinal down; the result holds
/// the same indices.
fn sort_desc(keys: &Vec<Option<ChunkName>>, idx: Vec<usize>) -> (r: Vec<usize>)
    requires
        keyed(keys@, idx@),
    ensures
        keyed(keys@, r@),
        sorted_desc(keys@, r@),
        r@.to_multiset() == idx@.to_multiset(),
{
    broadcast use vstd::multiset::lemma_multiset_empty_len, vstd::multiset::group_multiset_axioms;

    let ghost all = idx@.to_multiset();
    let mut rest = idx;
    let mut out: Vec<usize> = Vec::new();
    proof {
        out@.to_multiset_ensures();
    }
    assert(out@.to_multiset() =~= Multiset::empty());
    while rest.len() > 0
        invariant
            keyed(keys@, rest@),
            keyed(keys@, out@),
            sorted_desc(keys@, out@),
            out@.to_multiset().add(rest@.to_multiset()) == all,
        decreases rest.len(),
    {
        let ghost before_rest = rest@;
        let x = rest.pop().unwrap();
        assert(before_rest =~= rest@.push(x));
        assert(before_rest[before_rest.len() - 1] == x);
        let ghost ov = out@;
        let xr = rank_of(keys, x);
        let mut p: usize = 0;
        while p < out.len()
            invariant
                ov == out@,
                keyed(keys@, ov),
                xr as nat == ordinal_rank(key_of(keys@, x)),
                p <= out.len(),
                forall|k: int| 0 <= k < p ==> ordinal_rank(key_of(keys@, #[trigger] ov[k])) >= xr,
            ensures
                p <= out.len(),
                forall|k: int| 0 <= k < p ==> ordinal_rank(key_of(keys@, #[trigger] ov[k])) >= xr,
                p < out.len() ==> ordinal_rank(key_of(keys@, ov[p as int])) < xr,
            decreases out.len() - p,
        {
            let q = out[p];
            assert(ov[p as int] == q);
            if rank_of(keys, q) < xr {
                break;
            }
            p += 1;
        }
        out.insert(p, x);
        let ghost nv = out@;
        assert(nv =~= ov.insert(p as int, x));
        assert(keyed(keys@, nv)) by {
            assert forall|i: int| 0 <= i < nv.len() implies #[trigger] nv[i] < keys.len() && keys@[nv[i] as int] is Some by {
                if i < p {
                    assert(nv[i] == ov[i]);
                } else if i > p {
                    assert(nv[i] == ov[i - 1]);
                }
            }
        }
        assert(sorted_desc(keys@, nv)) by {
            assert forall|i: int, j: int| 0 <= i < j < nv.len() implies ordinal_rank(key_of(keys@, nv[i]))
                >= ordinal_rank(key_of(keys@, nv[j])) by {
                if j < p {
                    assert(nv[i] == ov[i] && nv[j] == ov[j]);
                } else if j == p {
                    assert(nv[i] == ov[i]);
                } else if i < p {
                    assert(nv[i] == ov[i] && nv[j] == ov[j - 1]);
                    assert(ordinal_rank(key_of(keys@, ov[p as int])) >= ordinal_rank(key_of(keys@, ov[j - 1])));
                } else if i == p {
                    assert(nv[j] == ov[j - 1]);
                    assert(ordinal_rank(key_of(keys@, ov[p as int])) >= ordinal_rank(key_of(keys@, ov[j - 1])));
                } else {
                    assert(nv[i] == ov[i - 1] && nv[j] == ov[j - 1]);
                }
            }
        }
        proof {
            vstd::seq_lib::to_multiset_insert(ov, p as int, x);
            vstd::seq_lib::to_multiset_build(rest@, x);
        }
        assert(nv.to_multiset().add(rest@.to_multiset()) =~= all);
    }
    proof {
        rest@.to_multiset_ensures();
    }
    assert(rest@.to_multiset() =~= Multiset::empty());
    assert(out@.to_multiset() =~= all);
    out
}

fn contains_name(names: &Vec<String>, name: &String) -> (r: bool)
    ensures
        r == name_views(names@).contains(name@),
{
    let mut i: usize = 0;
    while i < names.len()
        invariant
            i <= names.len(),
            forall|j: int| 0 <= j < i ==> names@[j]@ != name@,
        decreases names.len() - i,
    {
        if names[i] == *name {
            assert(name_views(names@)[i as int] == name@);
            return true;
        }
        i += 1;
    }
    assert forall|j: int| 0 <= j < name_views(names@).len() implies name_views(names@)[j] != name@ by {
        assert(name_views(names@)[j] == names@[j]@);
    }
    false
}

/// The parsed name of each file (`None` where it does not parse).
pub open spec fn parsed_keys(files: Seq<ScannedFile>, keys: Seq<Option<ChunkName>>) -> bool {
    &&& keys.len() == files.len()
    &&& forall|k: int|
        0 <= k < files.len() ==> (#[trigger] keys[k] is Some <==> parse_name(files[k].name@) is Ok)
    &&& forall|k: int|
        0 <= k < files.len() && #[trigger] keys[k] is Some ==> parse_name(files[k].name@) == Ok::<
            Seq<Part>,
            ChunkNameError,
        >(keys[k]->Some_0@)
}

fn parse_scanned(files: &Vec<ScannedFile>) -> (r: (Vec<Option<ChunkName>>, Vec<ChunkName>))
    ensures
        parsed_keys(files@, r.0@),
        views(r.1@) == scanned_chain(files@),
{
    let n = files.len();
    let mut keys: Vec<Option<ChunkName>> = Vec::new();
    let mut known: Vec<ChunkName> = Vec::new();
    let mut i: usize = 0;
    while i < n
        invariant
            n == files.len(),
            i <= n,
            parsed_keys(files@.subrange(0, i as int), keys@),
            views(known@) == scanned_chain(files@.subrange(0, i as int)),
        decreases n - i,
    {
        let ghost pre = files@.subrange(0, i + 1);
        assert(pre.drop_last() =~= files@.subrange(0, i as int));
        assert(pre.last() == files@[i as int]);
        let ghost kv = views(known@);
        match ChunkName::try_from_str(files[i].name.as_str()) {
            Ok(c) => {
                known.push(c.duplicate());
                assert(views(known@) =~= kv.push(c@));
                keys.push(Some(c));
            },
            Err(_) => {
                keys.push(None);
            },
        }
        assert forall|k: int| 0 <= k < i + 1 implies #[trigger] pre[k] == files@[k] by {}
        i += 1;
    }
    assert(files@.subrange(0, n as int) =~= files@);
    (keys, known)
}

fn plan_full_restores(files: &Vec<ScannedFile>, backups: &Vec<String>) -> (r: Vec<RestoreStep>)
    ensures
        r@ == restore_steps(files@, name_views(backups@)),
{
    let n = files.len();
    let ghost bv = name_views(backups@);
    let mut restores: Vec<RestoreStep> = Vec::new();
    let mut i: usize = 0;
    while i < n
        invariant
            n == files.len(),
            i <= n,
            bv == name_views(backups@),
            restores@ == restore_steps(files@.subrange(0, i as int), bv),
        decreases n - i,
    {
        let ghost pre = files@.subrange(0, i + 1);
        assert(pre.drop_last() =~= files@.subrange(0, i as int));
        assert(pre.last() == files@[i as int]);
        let f = &files[i];
        if let RestoreKind::FullRestore = restore_kind(f.metadata) {
            let b = backup_name(f.name.as_str());
            let action = if contains_name(backups, &b) {
                RestoreAction::RestoreBackup
            } else {
                RestoreAction::MissingBackup
            };
            restores.push(RestoreStep { file: i, action });
        }
        i += 1;
    }
    assert(files@.subrange(0, n as int) =~= files@);
    restores
}

fn collect_targets(files: &Vec<ScannedFile>, keys: &Vec<Option<ChunkName>>) -> (r: Vec<usize>)
    requires
        parsed_keys(files@, keys@),
    ensures
        r@ == patch_targets(files@),
        keyed(keys@, r@),
{
    let n = files.len();
    let mut targets: Vec<usize> = Vec::new();
    let mut i: usize = 0;
    while i < n
        invariant
            n == files.len(),
            i <= n,
            parsed_keys(files@, keys@),
            targets@ == patch_targets(files@.subrange(0, i as int)),
            keyed(keys@, targets@),
        decreases n - i,
    {
        let ghost pre = files@.subrange(0, i + 1);
        assert(pre.drop_last() =~= files@.subrange(0, i as int));
        assert(pre.last() == files@[i as int]);
        let f = &files[i];
        assert(keys@[i as int] is Some <==> parse_name(files@[i as int].name@) is Ok);
        if let RestoreKind::PatchRemoval = restore_kind(f.metadata) {
            if keys[i].is_some() {
                targets.push(i);
            }
        }
        i += 1;
    }
    assert(files@.subrange(0, n as int) =~= files@);
    targets
}

fn names_in_order(keys: &Vec<Option<ChunkName>>, order: &Vec<usize>) -> (r: Vec<ChunkName>)
    requires
        keyed(keys@, order@),
    ensures
        r.len() == order.len(),
        forall|j: int| 0 <= j < order.len() ==> #[trigger] r@[j]@ == key_of(keys@, order@[j]),
{
    let mut ordered: Vec<ChunkName> = Vec::new();
    let mut k: usize = 0;
    while k < order.len()
        invariant
            k <= order.len(),
            keyed(keys@, order@),
            ordered.len() == k,
            forall|j: int| 0 <= j < k ==> #[trigger] ordered@[j]@ == key_of(keys@, order@[j]),
        decreases order.len() - k,
    {
        let q = order[k];
        assert(order@[k as int] == q);
        match &keys[q] {
            Some(c) => {
                ordered.push(c.duplicate());
            },
            None => {
                assert(false);
            },
        }
        k += 1;
    }
    ordered
}

fn zip_steps(order: &Vec<usize>, plans: &Vec<RemovalPlan>) -> (r: Vec<RemovalStep>)
    requires
        plans.len() == order.len(),
    ensures
        r@.map_values(|s: RemovalStep| s.file) == order@,
        r@.map_values(|s: RemovalStep| s.plan) == plans@,
{
    let mut removals: Vec<RemovalStep> = Vec::new();
    let mut k: usize = 0;
    while k < order.len()
        invariant
            k <= order.len(),
            plans.len() == order.len(),
            removals.len() == k,
            forall|j: int|
                0 <= j < k ==> #[trigger] removals@[j] == (RemovalStep { file: order@[j], plan: plans@[j] }),
        decreases order.len() - k,
    {
        removals.push(RemovalStep { file: order[k], plan: plans[k] });
        k += 1;
    }
    assert(removals@.map_values(|s: RemovalStep| s.file) =~= order@);
    assert(removals@.map_values(|s: RemovalStep| s.plan) =~= plans@);
    removals
}

/// Plans a restore over the scanned containers, given the backup files
/// present.
///
/// Each full-package container is restored from `<name>.backup` when that
/// is present, and otherwise reported. The generated patches whose names
/// parse are taken from the highest patch ordinal down; each is deleted when no
/// higher patch of its chain is left among the names still known (all
/// scanned names that parse, less those already deleted), and otherwise
/// replaced by an empty placeholder.
pub fn plan_restore(files: &Vec<ScannedFile>, backups: &Vec<String>) -> (r: RestorePlan)
    ensures
        r.restores@ == restore_steps(files@, name_views(backups@)),
        r.removals@.map_values(|s: RemovalStep| s.file).to_multiset() == patch_targets(
            files@,
        ).to_multiset(),
        forall|i: int, j: int|
            0 <= i < j < r.removals.len() ==> ordinal_rank(
                target_name(files@, #[trigger] r.removals@[i].file),
            ) >= ordinal_rank(target_name(files@, #[trigger] r.removals@[j].file)),
        r.removals@.map_values(|s: RemovalStep| s.plan) == batch_plans(
            scanned_chain(files@),
            r.removals@.map_values(|s: RemovalStep| target_name(files@, s.file)),
        ),
{
    let (keys, known) = parse_scanned(files);
    let restores = plan_full_restores(files, backups);
    let targets = collect_targets(files, &keys);
    let order = sort_desc(&keys, targets);
    let ordered = names_in_order(&keys, &order);
    let mut chain = PatchChain::new(known);
    let ghost start = chain@;
    let plans = chain.plan_removals(&ordered);
    proof {
        crate::chain::lemma_batch_plans_len(start, views(ordered@));
    }
    let removals = zip_steps(&order, &plans);
    assert forall|j: int| 0 <= j < order.len() implies key_of(keys@, #[trigger] order@[j]) == target_name(files@, order@[j]) by {
        assert(keys@[order@[j] as int] is Some);
    }
    assert(removals@.map_values(|s: RemovalStep| target_name(files@, s.file)) =~= views(ordered@)) by {
        assert forall|j: int| 0 <= j < removals.len() implies target_name(files@, #[trigger] removals@[j].file) == views(ordered@)[j] by {
            assert(removals@.map_values(|s: RemovalStep| s.file)[j] == order@[j]);
            assert(keys@[order@[j] as int] is Some);
        }
    }
    assert forall|i: int, j: int| 0 <= i < j < removals.len() implies ordinal_rank(
        target_name(files@, #[trigger] removals@[i].file),
    ) >= ordinal_rank(target_name(files@, #[trigger] removals@[j].file)) by {
        assert(removals@.map_values(|s: RemovalStep| s.file)[i] == order@[i]);
        assert(removals@.map_values(|s: RemovalStep| s.file)[j] == order@[j]);
        assert(keys@[order@[i] as int] is Some);
        assert(keys@[order@[j] as int] is Some);
    }
    RestorePlan { restores, removals }
}

} // verus!
