//! Patch chains: the known names of one directory, from which new patch ids
//! are allocated and removals are planned so that the visible patch
//! numbering of each chain stays without gaps.
use crate::chunk::{first_id, id_of, views, ChunkName, IdKind, Part};
use core::cmp::Ordering;
use vstd::prelude::*;

verus! {

/// What to do with a generated patch file that is to go away.
#[derive(Debug, Clone, Copy, PartialEq, Eq, Structural)]
pub enum RemovalPlan {
    /// A higher patch of the same chain exists: overwrite the file with an
    /// empty container so that the numbering stays contiguous.
    DeletePlaceholder,
    /// Nothing higher exists: delete the file.
    DeleteFinal,
}

/// Whether `c` belongs to the series of `t` for patch id allocation: the
/// same base and sub ids.
pub open spec fn same_series(c: Seq<Part>, t: Seq<Part>) -> bool {
    &&& first_id(c, IdKind::Base) == first_id(t, IdKind::Base)
    &&& first_id(c, IdKind::Sub) == first_id(t, IdKind::Sub)
}

/// The sub patch id that `c` contributes to the series of `t` (0 for none).
pub open spec fn series_ordinal(c: Seq<Part>, t: Seq<Part>) -> nat {
    if same_series(c, t) && first_id(c, IdKind::SubPatch) is Some {
        first_id(c, IdKind::SubPatch)->0 as nat
    } else {
        0
    }
}

/// The largest sub patch id in the series of `t` (0 for none).
pub open spec fn max_ordinal(names: Seq<Seq<Part>>, t: Seq<Part>) -> nat
    decreases names.len(),
{
    if names.len() == 0 {
        0
    } else {
        let m = max_ordinal(names.drop_last(), t);
        let o = series_ordinal(names.last(), t);
        if o > m {
            o
        } else {
            m
        }
    }
}

/// The id for the next patch of `t`'s series: one above the largest, if
/// that fits a `u32`.
pub open spec fn next_id(names: Seq<Seq<Part>>, t: Seq<Part>) -> Option<u32> {
    if max_ordinal(names, t) < u32::MAX {
        Some((max_ordinal(names, t) + 1) as u32)
    } else {
        None
    }
}

/// The patch ordinal of a name: its sub patch id, or else its patch id.
pub open spec fn ordinal(t: Seq<Part>) -> Option<u32> {
    if first_id(t, IdKind::SubPatch) is Some {
        first_id(t, IdKind::SubPatch)
    } else {
        first_id(t, IdKind::Patch)
    }
}

/// Whether `c` is a strictly higher patch than `t` at the same (base, sub)
/// position.
pub open spec fn is_higher(c: Seq<Part>, t: Seq<Part>) -> bool {
    &&& first_id(c, IdKind::Base) == first_id(t, IdKind::Base)
    &&& first_id(c, IdKind::Sub) == first_id(t, IdKind::Sub)
    &&& ordinal(c) is Some
    &&& ordinal(t) is Some
    &&& ordinal(c)->0 > ordinal(t)->0
}

pub open spec fn has_higher(names: Seq<Seq<Part>>, t: Seq<Part>) -> bool {
    exists|i: int| 0 <= i < names.len() && is_higher(#[trigger] names[i], t)
}

/// The plan for removing `t` while `names` are known.
pub open spec fn removal_plan(names: Seq<Seq<Part>>, t: Seq<Part>) -> RemovalPlan {
    if has_higher(names, t) {
        RemovalPlan::DeletePlaceholder
    } else {
        RemovalPlan::DeleteFinal
    }
}

/// The known names once `t` is deleted.
pub open spec fn without(names: Seq<Seq<Part>>, t: Seq<Part>) -> Seq<Seq<Part>> {
    names.filter(|c: Seq<Part>| c != t)
}

/// The known names after carrying out `plan` for `t`.
pub open spec fn after_plan(names: Seq<Seq<Part>>, t: Seq<Part>, plan: RemovalPlan) -> Seq<Seq<Part>> {
    match plan {
        RemovalPlan::DeleteFinal => without(names, t),
        RemovalPlan::DeletePlaceholder => names,
    }
}

/// The plans for removing `targets` one after another, each decided on the
/// names left by the ones before.
pub open spec fn batch_plans(names: Seq<Seq<Part>>, targets: Seq<Seq<Part>>) -> Seq<RemovalPlan>
    decreases targets.len(),
{
    if targets.len() == 0 {
        Seq::empty()
    } else {
        let plan = removal_plan(names, targets[0]);
        seq![plan] + batch_plans(after_plan(names, targets[0], plan), targets.drop_first())
    }
}

/// The names known after removing `targets` one after another.
pub open spec fn batch_names(names: Seq<Seq<Part>>, targets: Seq<Seq<Part>>) -> Seq<Seq<Part>>
    decreases targets.len(),
{
    if targets.len() == 0 {
        names
    } else {
        let plan = removal_plan(names, targets[0]);
        batch_names(after_plan(names, targets[0], plan), targets.drop_first())
    }
}

/// The largest sub patch id of a series is the maximum over the names of
/// the series: no name of it has a larger one, and some name has it unless
/// it is 0.
pub proof fn lemma_max_ordinal(names: Seq<Seq<Part>>, t: Seq<Part>)
    ensures
        forall|i: int| 0 <= i < names.len() ==> series_ordinal(#[trigger] names[i], t) <= max_ordinal(names, t),
        max_ordinal(names, t) == 0 || exists|i: int|
            0 <= i < names.len() && series_ordinal(#[trigger] names[i], t) == max_ordinal(names, t),
    decreases names.len(),
{
    if names.len() > 0 {
        let init = names.drop_last();
        lemma_max_ordinal(init, t);
        assert forall|i: int| 0 <= i < names.len() implies series_ordinal(#[trigger] names[i], t) <= max_ordinal(names, t) by {
            if i < init.len() {
                assert(names[i] == init[i]);
            }
        }
        if max_ordinal(names, t) != 0 {
            if series_ordinal(names.last(), t) > max_ordinal(init, t) {
                assert(series_ordinal(names[names.len() - 1], t) == max_ordinal(names, t));
            } else {
                let i = choose|i: int| 0 <= i < init.len() && series_ordinal(#[trigger] init[i], t) == max_ordinal(init, t);
                assert(names[i] == init[i]);
            }
        }
    }
}

proof fn lemma_max_ordinal_le(a: Seq<Seq<Part>>, b: Seq<Seq<Part>>, t: Seq<Part>)
    requires
        forall|x: Seq<Part>| a.contains(x) ==> b.contains(x),
    ensures
        max_ordinal(a, t) <= max_ordinal(b, t),
{
    lemma_max_ordinal(a, t);
    lemma_max_ordinal(b, t);
    if max_ordinal(a, t) != 0 {
        let i = choose|i: int| 0 <= i < a.len() && series_ordinal(#[trigger] a[i], t) == max_ordinal(a, t);
        assert(a.contains(a[i]));
        let j = choose|j: int| 0 <= j < b.len() && b[j] == a[i];
        assert(series_ordinal(b[j], t) <= max_ordinal(b, t));
    }
}

/// The next patch id depends only on which names are known, not on the
/// order in which they were found.
pub proof fn lemma_next_id_order_free(a: Seq<Seq<Part>>, b: Seq<Seq<Part>>, t: Seq<Part>)
    requires
        a.to_multiset() == b.to_multiset(),
    ensures
        next_id(a, t) == next_id(b, t),
{
    a.to_multiset_ensures();
    b.to_multiset_ensures();
    assert forall|x: Seq<Part>| a.contains(x) implies b.contains(x) by {
        assert(a.to_multiset().count(x) > 0);
    }
    assert forall|x: Seq<Part>| b.contains(x) implies a.contains(x) by {
        assert(b.to_multiset().count(x) > 0);
    }
    lemma_max_ordinal_le(a, b, t);
    lemma_max_ordinal_le(b, a, t);
}

proof fn lemma_first_id_push(c: Seq<Part>, p: Part, kind: IdKind)
    ensures
        first_id(c.push(p), kind) == (if first_id(c, kind) is Some {
            first_id(c, kind)
        } else {
            id_of(p, kind)
        }),
    decreases c.len(),
{
    if c.len() == 0 {
        assert(c.push(p).drop_first() =~= Seq::<Part>::empty());
        assert(first_id(Seq::<Part>::empty(), kind) is None);
        assert(c.push(p)[0] == p);
    } else {
        assert(c.push(p)[0] == c[0]);
        assert(c.push(p).drop_first() =~= c.drop_first().push(p));
        lemma_first_id_push(c.drop_first(), p, kind);
    }
}

/// Allocating within one run: once the name with the next id of chunk `c`'s
/// series is registered, the following allocation for any chunk of the same
/// series gives the id after it.
pub proof fn lemma_register_then_next(names: Seq<Seq<Part>>, c: Seq<Part>, t: Seq<Part>)
    requires
        same_series(c, t),
        first_id(c, IdKind::SubPatch) is None,
        next_id(names, c) is Some,
    ensures
        next_id(names, t) == next_id(names, c),
        max_ordinal(names.push(c.push(Part::SubPatch(next_id(names, c)->0))), t) == next_id(
            names,
            c,
        )->0,
{
    let k = next_id(names, c)->0;
    let n = c.push(Part::SubPatch(k));
    lemma_same_series_max(names, c, t);
    lemma_first_id_push(c, Part::SubPatch(k), IdKind::Base);
    lemma_first_id_push(c, Part::SubPatch(k), IdKind::Sub);
    lemma_first_id_push(c, Part::SubPatch(k), IdKind::SubPatch);
    assert(names.push(n).drop_last() =~= names);
}

proof fn lemma_same_series_max(names: Seq<Seq<Part>>, c: Seq<Part>, t: Seq<Part>)
    requires
        same_series(c, t),
    ensures
        max_ordinal(names, c) == max_ordinal(names, t),
    decreases names.len(),
{
    if names.len() > 0 {
        lemma_same_series_max(names.drop_last(), c, t);
    }
}

pub proof fn lemma_batch_plans_len(names: Seq<Seq<Part>>, targets: Seq<Seq<Part>>)
    ensures
        batch_plans(names, targets).len() == targets.len(),
    decreases targets.len(),
{
    if targets.len() > 0 {
        let plan = removal_plan(names, targets[0]);
        lemma_batch_plans_len(after_plan(names, targets[0], plan), targets.drop_first());
    }
}

/// The chunk names known in one directory.
pub struct PatchChain {
    pub names: Vec<ChunkName>,
}

impl View for PatchChain {
    type V = Seq<Seq<Part>>;

    open spec fn view(&self) -> Seq<Seq<Part>> {
        views(self.names@)
    }
}

pub(crate) fn ordinal_of(t: &ChunkName) -> (r: Option<u32>)
    ensures
        r == ordinal(t@),
{
    match t.sub_patch_id() {
        Some(id) => Some(id),
        None => t.patch_id(),
    }
}

impl PatchChain {
    /// A chain over the given names.
    pub fn new(names: Vec<ChunkName>) -> (r: Self)
        ensures
            r@ == views(names@),
    {
        PatchChain { names }
    }

    /// Records a newly allocated name, so that later allocations see it.
    pub fn register(&mut self, name: ChunkName)
        ensures
            final(self)@ == old(self)@.push(name@),
    {
        self.names.push(name);
        assert(final(self)@ =~= old(self)@.push(name@));
    }

    /// The id for the next sub patch of `chunk`'s series: one above the
    /// largest sub patch id among the known names with the same base and sub
    /// ids, or 1 when there is none; `None` when that would not fit.
    pub fn next_patch_id(&self, chunk: &ChunkName) -> (r: Option<u32>)
        ensures
            r == next_id(self@, chunk@),
    {
        let base = chunk.major_id();
        let sub = chunk.sub_id();
        let mut max: u32 = 0;
        let mut i: usize = 0;
        while i < self.names.len()
            invariant
                i <= self.names.len(),
                base == first_id(chunk@, IdKind::Base),
                sub == first_id(chunk@, IdKind::Sub),
                max as nat == max_ordinal(self@.subrange(0, i as int), chunk@),
            decreases self.names.len() - i,
        {
            let c = &self.names[i];
            let ghost pre = self@.subrange(0, i + 1);
            assert(pre.drop_last() =~= self@.subrange(0, i as int));
            assert(pre.last() == c@);
            if c.major_id() == base && c.sub_id() == sub {
                if let Some(o) = c.sub_patch_id() {
                    if o > max {
                        max = o;
                    }
                }
            }
            i += 1;
        }
        assert(self@.subrange(0, self@.len() as int) =~= self@);
        if max < u32::MAX {
            Some(max + 1)
        } else {
            None
        }
    }

    /// Whether a known name is a strictly higher patch than `target` at the
    /// same (base, sub) position; the ordinal of a name is its sub patch id,
    /// or else its patch id.
    pub fn has_higher_patch(&self, target: &ChunkName) -> (r: bool)
        ensures
            r == has_higher(self@, target@),
    {
        let base = target.major_id();
        let sub = target.sub_id();
        let t_ord = ordinal_of(target);
        let mut i: usize = 0;
        while i < self.names.len()
            invariant
                i <= self.names.len(),
                base == first_id(target@, IdKind::Base),
                sub == first_id(target@, IdKind::Sub),
                t_ord == ordinal(target@),
                forall|j: int| 0 <= j < i ==> !is_higher(#[trigger] self@[j], target@),
            decreases self.names.len() - i,
        {
            let c = &self.names[i];
            assert(self@[i as int] == c@);
            if c.major_id() == base && c.sub_id() == sub {
                match (ordinal_of(c), t_ord) {
                    (Some(a), Some(b)) => {
                        if a > b {
                            return true;
                        }
                    },
                    _ => {},
                }
            }
            i += 1;
        }
        false
    }

    /// The plan for removing `target`: a placeholder while a higher patch of
    /// its chain is known, else deletion.
    pub fn plan_removal(&self, target: &ChunkName) -> (r: RemovalPlan)
        ensures
            r == removal_plan(self@, target@),
    {
        if self.has_higher_patch(target) {
            RemovalPlan::DeletePlaceholder
        } else {
            RemovalPlan::DeleteFinal
        }
    }

    /// Forgets every known name equal to `name`.
    pub fn remove(&mut self, name: &ChunkName)
        ensures
            final(self)@ == without(old(self)@, name@),
    {
        let ghost old_view = self@;
        let ghost pred = |c: Seq<Part>| c != name@;
        let mut kept: Vec<ChunkName> = Vec::new();
        let mut i: usize = 0;
        assert(old_view.subrange(0, 0) =~= Seq::<Seq<Part>>::empty());
        assert(views(kept@) =~= old_view.subrange(0, 0).filter(pred));
        while i < self.names.len()
            invariant
                i <= self.names.len(),
                old_view == self@,
                pred == (|c: Seq<Part>| c != name@),
                views(kept@) == old_view.subrange(0, i as int).filter(pred),
            decreases self.names.len() - i,
        {
            let c = &self.names[i];
            let ghost pre = old_view.subrange(0, i as int);
            assert(old_view.subrange(0, i + 1) =~= pre.push(c@));
            proof {
                pre.lemma_filter_push(c@, pred);
            }
            proof {
                crate::chunk_order::lemma_name_order(c@, name@, c@);
            }
            assert(pred(c@) == (c@ != name@));
            match c.compare(name) {
                Ordering::Equal => {},
                _ => {
                    let ghost kv = views(kept@);
                    kept.push(c.duplicate());
                    assert(views(kept@) =~= kv.push(c@));
                },
            }
            i += 1;
        }
        assert(old_view.subrange(0, old_view.len() as int) =~= old_view);
        self.names = kept;
    }

    /// Plans the removal of `targets` in the order given, each decided on the
    /// names left by the ones before: a name planned for deletion is
    /// forgotten at once, so that a lower patch planned later can be deleted
    /// too.
    pub fn plan_removals(&mut self, targets: &Vec<ChunkName>) -> (r: Vec<RemovalPlan>)
        ensures
            r@ == batch_plans(old(self)@, views(targets@)),
            final(self)@ == batch_names(old(self)@, views(targets@)),
    {
        let ghost tv = views(targets@);
        let mut plans: Vec<RemovalPlan> = Vec::new();
        let mut i: usize = 0;
        assert(tv.subrange(0, tv.len() as int) =~= tv);
        while i < targets.len()
            invariant
                i <= targets.len(),
                tv == views(targets@),
                batch_plans(old(self)@, tv) == plans@ + batch_plans(self@, tv.subrange(i as int, tv.len() as int)),
                batch_names(old(self)@, tv) == batch_names(self@, tv.subrange(i as int, tv.len() as int)),
            decreases targets.len() - i,
        {
            let t = &targets[i];
            let ghost rest = tv.subrange(i as int, tv.len() as int);
            assert(rest[0] == t@);
            assert(rest.drop_first() =~= tv.subrange(i + 1, tv.len() as int));
            let plan = self.plan_removal(t);
            let ghost pv = plans@;
            plans.push(plan);
            if let RemovalPlan::DeleteFinal = plan {
                self.remove(t);
            }
            assert(plans@ =~= pv.push(plan));
            assert(pv + (seq![plan] + batch_plans(self@, tv.subrange(i + 1, tv.len() as int))) =~= plans@
                + batch_plans(self@, tv.subrange(i + 1, tv.len() as int)));
            i += 1;
        }
        assert(tv.subrange(i as int, tv.len() as int) =~= Seq::<Seq<Part>>::empty());
        assert(plans@ + Seq::<RemovalPlan>::empty() =~= plans@);
        plans
    }
}

} // verus!
