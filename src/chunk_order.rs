//! The order of chunk names.
use crate::chunk::{ChunkComponent, ChunkName, Part};
use core::cmp::Ordering;
use vstd::prelude::*;

verus! {

pub open spec fn cmp_int(a: int, b: int) -> Ordering {
    if a < b {
        Ordering::Less
    } else if a > b {
        Ordering::Greater
    } else {
        Ordering::Equal
    }
}

pub open spec fn flip(o: Ordering) -> Ordering {
    match o {
        Ordering::Less => Ordering::Greater,
        Ordering::Greater => Ordering::Less,
        Ordering::Equal => Ordering::Equal,
    }
}

/// Lexicographic order of texts by character code.
pub open spec fn cmp_chars(a: Seq<char>, b: Seq<char>) -> Ordering
    decreases a.len(),
{
    if a.len() == 0 {
        if b.len() == 0 {
            Ordering::Equal
        } else {
            Ordering::Less
        }
    } else if b.len() == 0 {
        Ordering::Greater
    } else if a[0] < b[0] {
        Ordering::Less
    } else if a[0] > b[0] {
        Ordering::Greater
    } else {
        cmp_chars(a.drop_first(), b.drop_first())
    }
}

/// Priority of a part's kind in the order: base, DLC, sub, patch, sub patch.
pub open spec fn kind_rank(p: Part) -> int {
    match p {
        Part::Base(_) => 0,
        Part::Dlc(_) => 1,
        Part::Sub(_) => 2,
        Part::Patch(_) => 3,
        Part::SubPatch(_) => 4,
    }
}

/// Parts of different kinds compare by kind; of one kind, by their ids.
pub open spec fn cmp_part(a: Part, b: Part) -> Ordering {
    match (a, b) {
        (Part::Base(x), Part::Base(y)) => cmp_int(x as int, y as int),
        (Part::Dlc(x), Part::Dlc(y)) => cmp_chars(x, y),
        (Part::Patch(x), Part::Patch(y)) => cmp_int(x as int, y as int),
        (Part::Sub(x), Part::Sub(y)) => cmp_int(x as int, y as int),
        (Part::SubPatch(x), Part::SubPatch(y)) => cmp_int(x as int, y as int),
        _ => cmp_int(kind_rank(a), kind_rank(b)),
    }
}

/// Pairwise order of two part sequences: the first unequal pair decides.
pub open spec fn cmp_seq(a: Seq<Part>, b: Seq<Part>) -> Ordering
    decreases a.len(),
{
    if a.len() == 0 || b.len() == 0 {
        Ordering::Equal
    } else if cmp_part(a[0], b[0]) != Ordering::Equal {
        cmp_part(a[0], b[0])
    } else {
        cmp_seq(a.drop_first(), b.drop_first())
    }
}

/// The order of chunk names: fewer components first, then pairwise.
pub open spec fn cmp_names(a: Seq<Part>, b: Seq<Part>) -> Ordering {
    if a.len() != b.len() {
        cmp_int(a.len() as int, b.len() as int)
    } else {
        cmp_seq(a, b)
    }
}

fn compare_text(a: &str, b: &str) -> (r: Ordering)
    ensures
        r == cmp_chars(a@, b@),
{
    let n = a.unicode_len();
    let m = b.unicode_len();
    let mut i: usize = 0;
    assert(a@.subrange(0, n as int) =~= a@);
    assert(b@.subrange(0, m as int) =~= b@);
    while i < n && i < m
        invariant
            n == a@.len(),
            m == b@.len(),
            i <= n,
            i <= m,
            cmp_chars(a@, b@) == cmp_chars(a@.subrange(i as int, n as int), b@.subrange(i as int, m as int)),
        decreases n - i,
    {
        let x = a.get_char(i);
        let y = b.get_char(i);
        let ghost sa = a@.subrange(i as int, n as int);
        let ghost sb = b@.subrange(i as int, m as int);
        assert(sa[0] == x && sb[0] == y);
        if x < y {
            return Ordering::Less;
        } else if x > y {
            return Ordering::Greater;
        }
        assert(sa.drop_first() =~= a@.subrange(i + 1, n as int));
        assert(sb.drop_first() =~= b@.subrange(i + 1, m as int));
        i += 1;
    }
    if i < n {
        Ordering::Greater
    } else if i < m {
        Ordering::Less
    } else {
        Ordering::Equal
    }
}

fn compare_u32(a: u32, b: u32) -> (r: Ordering)
    ensures
        r == cmp_int(a as int, b as int),
{
    if a < b {
        Ordering::Less
    } else if a > b {
        Ordering::Greater
    } else {
        Ordering::Equal
    }
}

fn kind_rank_of(c: &ChunkComponent) -> (r: u32)
    ensures
        r as int == kind_rank(c@),
{
    match c {
        ChunkComponent::Base(_) => 0,
        ChunkComponent::Dlc(_) => 1,
        ChunkComponent::Sub(_) => 2,
        ChunkComponent::Patch(_) => 3,
        ChunkComponent::SubPatch(_) => 4,
    }
}

fn compare_component(a: &ChunkComponent, b: &ChunkComponent) -> (r: Ordering)
    ensures
        r == cmp_part(a@, b@),
{
    match (a, b) {
        (ChunkComponent::Base(x), ChunkComponent::Base(y)) => compare_u32(*x, *y),
        (ChunkComponent::Dlc(x), ChunkComponent::Dlc(y)) => compare_text(x.as_str(), y.as_str()),
        (ChunkComponent::Patch(x), ChunkComponent::Patch(y)) => compare_u32(*x, *y),
        (ChunkComponent::Sub(x), ChunkComponent::Sub(y)) => compare_u32(*x, *y),
        (ChunkComponent::SubPatch(x), ChunkComponent::SubPatch(y)) => compare_u32(*x, *y),
        _ => compare_u32(kind_rank_of(a), kind_rank_of(b)),
    }
}

impl ChunkName {
    /// Orders names: fewer components first; with as many, the first pair
    /// of components that differ decides, by kind (base, DLC, sub, patch,
    /// sub patch) and then by id.
    pub fn compare(&self, other: &ChunkName) -> (r: Ordering)
        ensures
            r == cmp_names(self@, other@),
    {
        let n = self.components.len();
        let m = other.components.len();
        if n < m {
            return Ordering::Less;
        } else if n > m {
            return Ordering::Greater;
        }
        let mut i: usize = 0;
        assert(self@.subrange(0, n as int) =~= self@);
        assert(other@.subrange(0, n as int) =~= other@);
        while i < n
            invariant
                n == self@.len(),
                n == other@.len(),
                i <= n,
                cmp_names(self@, other@) == cmp_seq(
                    self@.subrange(i as int, n as int),
                    other@.subrange(i as int, n as int),
                ),
            decreases n - i,
        {
            let ghost sa = self@.subrange(i as int, n as int);
            let ghost sb = other@.subrange(i as int, n as int);
            assert(sa[0] == self.components@[i as int]@);
            assert(sb[0] == other.components@[i as int]@);
            let c = compare_component(&self.components[i], &other.components[i]);
            match c {
                Ordering::Equal => {},
                _ => {
                    return c;
                },
            }
            assert(sa.drop_first() =~= self@.subrange(i + 1, n as int));
            assert(sb.drop_first() =~= other@.subrange(i + 1, n as int));
            i += 1;
        }
        Ordering::Equal
    }
}

proof fn lemma_chars_flip(a: Seq<char>, b: Seq<char>)
    ensures
        cmp_chars(b, a) == flip(cmp_chars(a, b)),
        cmp_chars(a, b) == Ordering::Equal ==> a == b,
    decreases a.len(),
{
    if a.len() > 0 && b.len() > 0 && a[0] == b[0] {
        lemma_chars_flip(a.drop_first(), b.drop_first());
        if cmp_chars(a, b) == Ordering::Equal {
            assert forall|i: int| 0 <= i < a.len() implies a[i] == b[i] by {
                if i > 0 {
                    assert(a[i] == a.drop_first()[i - 1]);
                    assert(b[i] == b.drop_first()[i - 1]);
                }
            }
            assert(a.drop_first().len() == b.drop_first().len());
            assert(a =~= b);
        }
    } else if a.len() == 0 && b.len() == 0 {
        assert(a =~= b);
    }
}

proof fn lemma_chars_trans(a: Seq<char>, b: Seq<char>, c: Seq<char>)
    requires
        cmp_chars(a, b) == Ordering::Less,
        cmp_chars(b, c) == Ordering::Less,
    ensures
        cmp_chars(a, c) == Ordering::Less,
    decreases a.len(),
{
    if a.len() > 0 && b.len() > 0 && c.len() > 0 && a[0] == b[0] && b[0] == c[0] {
        lemma_chars_trans(a.drop_first(), b.drop_first(), c.drop_first());
    }
}

proof fn lemma_part_flip(a: Part, b: Part)
    ensures
        cmp_part(b, a) == flip(cmp_part(a, b)),
        cmp_part(a, b) == Ordering::Equal ==> a == b,
{
    if let (Part::Dlc(x), Part::Dlc(y)) = (a, b) {
        lemma_chars_flip(x, y);
    }
}

proof fn lemma_part_trans(a: Part, b: Part, c: Part)
    requires
        cmp_part(a, b) == Ordering::Less,
        cmp_part(b, c) == Ordering::Less,
    ensures
        cmp_part(a, c) == Ordering::Less,
{
    if let (Part::Dlc(x), Part::Dlc(y), Part::Dlc(z)) = (a, b, c) {
        lemma_chars_trans(x, y, z);
    }
}

proof fn lemma_seq_flip(a: Seq<Part>, b: Seq<Part>)
    requires
        a.len() == b.len(),
    ensures
        cmp_seq(b, a) == flip(cmp_seq(a, b)),
        cmp_seq(a, b) == Ordering::Equal ==> a == b,
    decreases a.len(),
{
    if a.len() > 0 {
        lemma_part_flip(a[0], b[0]);
        if cmp_part(a[0], b[0]) == Ordering::Equal {
            lemma_seq_flip(a.drop_first(), b.drop_first());
            if cmp_seq(a, b) == Ordering::Equal {
                assert forall|i: int| 0 <= i < a.len() implies a[i] == b[i] by {
                    if i > 0 {
                        assert(a[i] == a.drop_first()[i - 1]);
                        assert(b[i] == b.drop_first()[i - 1]);
                    }
                }
                assert(a =~= b);
            }
        }
    } else {
        assert(a =~= b);
    }
}

proof fn lemma_seq_trans(a: Seq<Part>, b: Seq<Part>, c: Seq<Part>)
    requires
        a.len() == b.len(),
        b.len() == c.len(),
        cmp_seq(a, b) == Ordering::Less,
        cmp_seq(b, c) == Ordering::Less,
    ensures
        cmp_seq(a, c) == Ordering::Less,
    decreases a.len(),
{
    lemma_part_flip(a[0], b[0]);
    lemma_part_flip(b[0], c[0]);
    if cmp_part(a[0], b[0]) == Ordering::Equal {
        if cmp_part(b[0], c[0]) == Ordering::Equal {
            lemma_seq_trans(a.drop_first(), b.drop_first(), c.drop_first());
        }
    } else if cmp_part(b[0], c[0]) != Ordering::Equal {
        lemma_part_trans(a[0], b[0], c[0]);
    }
}

/// The order of chunk names is a strict total order: no name is below
/// itself, names compare equal only when they are the same, of two distinct
/// names exactly one is below the other, and the order is transitive.
pub proof fn lemma_name_order(a: Seq<Part>, b: Seq<Part>, c: Seq<Part>)
    ensures
        cmp_names(a, a) == Ordering::Equal,
        cmp_names(a, b) == Ordering::Equal <==> a == b,
        a != b ==> (cmp_names(a, b) == Ordering::Less) != (cmp_names(b, a) == Ordering::Less),
        cmp_names(b, a) == flip(cmp_names(a, b)),
        cmp_names(a, b) == Ordering::Less && cmp_names(b, c) == Ordering::Less ==> cmp_names(a, c)
            == Ordering::Less,
{
    lemma_seq_flip(a, a);
    if a.len() == b.len() {
        lemma_seq_flip(a, b);
    }
    if cmp_names(a, b) == Ordering::Less && cmp_names(b, c) == Ordering::Less {
        if a.len() == b.len() && b.len() == c.len() {
            lemma_seq_trans(a, b, c);
        }
    }
}

} // verus!
