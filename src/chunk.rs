//! Chunk file names.
//!
//! A name is a dot-separated sequence of `<component>.pak` pairs:
//! - base: `re_chunk_XXX.pak`
//! - patch: `re_chunk_XXX.pak.patch_XXX.pak`
//! - sub: `re_chunk_XXX.pak.sub_XXX.pak`
//! - sub patch: `re_chunk_XXX.pak.sub_XXX.pak.patch_XXX.pak`
//! - DLC: `re_dlc_stm_3308900.pak`
use vstd::prelude::*;

verus! {

/// One typed component of a chunk name.
#[derive(Debug, Clone, PartialEq, Eq, Hash)]
pub enum ChunkComponent {
    /// Base chunk with major id (`re_chunk_XXX.pak`).
    Base(u32),
    /// DLC chunk with its id (`re_dlc_stm_3308900.pak`).
    Dlc(String),
    /// Patch of the base chunk (`XXX` in `.patch_XXX.pak`).
    Patch(u32),
    /// Sub chunk (`XXX` in `.sub_XXX.pak`).
    Sub(u32),
    /// Patch of a sub chunk (`YYY` in `.sub_XXX.pak.patch_YYY.pak`).
    SubPatch(u32),
}

/// Mathematical model of a component: the DLC id is seen as its characters.
pub ghost enum Part {
    Base(u32),
    Dlc(Seq<char>),
    Patch(u32),
    Sub(u32),
    SubPatch(u32),
}

impl View for ChunkComponent {
    type V = Part;

    open spec fn view(&self) -> Part {
        match self {
            ChunkComponent::Base(id) => Part::Base(*id),
            ChunkComponent::Dlc(s) => Part::Dlc(s@),
            ChunkComponent::Patch(id) => Part::Patch(*id),
            ChunkComponent::Sub(id) => Part::Sub(*id),
            ChunkComponent::SubPatch(id) => Part::SubPatch(*id),
        }
    }
}

impl ChunkComponent {
    /// A copy of this component with the same model.
    pub fn duplicate(&self) -> (r: ChunkComponent)
        ensures
            r@ == self@,
    {
        match self {
            ChunkComponent::Base(id) => ChunkComponent::Base(*id),
            ChunkComponent::Dlc(s) => ChunkComponent::Dlc(s.clone()),
            ChunkComponent::Patch(id) => ChunkComponent::Patch(*id),
            ChunkComponent::Sub(id) => ChunkComponent::Sub(*id),
            ChunkComponent::SubPatch(id) => ChunkComponent::SubPatch(*id),
        }
    }
}

/// A chunk file name as its ordered components.
#[derive(Debug, Clone, PartialEq, Eq, Hash)]
pub struct ChunkName {
    pub components: Vec<ChunkComponent>,
}

impl View for ChunkName {
    type V = Seq<Part>;

    open spec fn view(&self) -> Seq<Part> {
        self.components@.map_values(|c: ChunkComponent| c@)
    }
}

/// The kinds of numeric id that a name can be asked for.
pub enum IdKind {
    Base,
    Patch,
    Sub,
    SubPatch,
}

/// The id that a part carries, if it is of the given kind.
pub open spec fn id_of(p: Part, kind: IdKind) -> Option<u32> {
    match (p, kind) {
        (Part::Base(id), IdKind::Base) => Some(id),
        (Part::Patch(id), IdKind::Patch) => Some(id),
        (Part::Sub(id), IdKind::Sub) => Some(id),
        (Part::SubPatch(id), IdKind::SubPatch) => Some(id),
        _ => None,
    }
}

/// The id of the first part of the given kind.
pub open spec fn first_id(parts: Seq<Part>, kind: IdKind) -> Option<u32>
    decreases parts.len(),
{
    if parts.len() == 0 {
        None
    } else if id_of(parts[0], kind) is Some {
        id_of(parts[0], kind)
    } else {
        first_id(parts.drop_first(), kind)
    }
}

impl ChunkName {
    /// A base chunk name (`re_chunk_XXX.pak`).
    pub fn new(major_id: u32) -> (r: Self)
        ensures
            r@ == seq![Part::Base(major_id)],
    {
        let mut components = Vec::new();
        components.push(ChunkComponent::Base(major_id));
        let r = ChunkName { components };
        assert(r@ =~= seq![Part::Base(major_id)]);
        r
    }

    /// A copy of this name with the same model.
    pub fn duplicate(&self) -> (r: Self)
        ensures
            r@ == self@,
    {
        let mut components: Vec<ChunkComponent> = Vec::new();
        let mut i: usize = 0;
        while i < self.components.len()
            invariant
                i <= self.components.len(),
                components@.len() == i,
                forall|j: int| 0 <= j < i ==> #[trigger] components@[j]@ == self.components@[j]@,
            decreases self.components.len() - i,
        {
            components.push(self.components[i].duplicate());
            i += 1;
        }
        let r = ChunkName { components };
        assert(r@ =~= self@);
        r
    }

    fn find_id(&self, kind: IdKind) -> (r: Option<u32>)
        ensures
            r == first_id(self@, kind),
    {
        let mut i: usize = 0;
        assert(self@.subrange(0, self@.len() as int) =~= self@);
        while i < self.components.len()
            invariant
                i <= self.components.len(),
                first_id(self@, kind) == first_id(self@.subrange(i as int, self@.len() as int), kind),
            decreases self.components.len() - i,
        {
            let rest = Ghost(self@.subrange(i as int, self@.len() as int));
            assert(rest@.drop_first() =~= self@.subrange(i + 1, self@.len() as int));
            assert(rest@[0] == self.components@[i as int]@);
            let found = match (&self.components[i], &kind) {
                (ChunkComponent::Base(id), IdKind::Base) => Some(*id),
                (ChunkComponent::Patch(id), IdKind::Patch) => Some(*id),
                (ChunkComponent::Sub(id), IdKind::Sub) => Some(*id),
                (ChunkComponent::SubPatch(id), IdKind::SubPatch) => Some(*id),
                _ => None,
            };
            if found.is_some() {
                return found;
            }
            i += 1;
        }
        None
    }

    /// The major id: that of the first base component.
    pub fn major_id(&self) -> (r: Option<u32>)
        ensures
            r == first_id(self@, IdKind::Base),
    {
        self.find_id(IdKind::Base)
    }

    /// The id of the first patch (of the base chunk) component.
    pub fn patch_id(&self) -> (r: Option<u32>)
        ensures
            r == first_id(self@, IdKind::Patch),
    {
        self.find_id(IdKind::Patch)
    }

    /// The id of the first sub component.
    pub fn sub_id(&self) -> (r: Option<u32>)
        ensures
            r == first_id(self@, IdKind::Sub),
    {
        self.find_id(IdKind::Sub)
    }

    /// The id of the first sub patch component.
    pub fn sub_patch_id(&self) -> (r: Option<u32>)
        ensures
            r == first_id(self@, IdKind::SubPatch),
    {
        self.find_id(IdKind::SubPatch)
    }

    /// A new name with a sub patch component appended; `self` is unchanged.
    pub fn with_sub_patch(&self, patch_id: u32) -> (r: Self)
        ensures
            r@ == self@.push(Part::SubPatch(patch_id)),
    {
        let mut r = self.duplicate();
        r.components.push(ChunkComponent::SubPatch(patch_id));
        assert(r@ =~= self@.push(Part::SubPatch(patch_id)));
        r
    }
}

/// The models of a sequence of names.
pub open spec fn views(v: Seq<ChunkName>) -> Seq<Seq<Part>> {
    v.map_values(|c: ChunkName| c@)
}

} // verus!
