use mhws_tex_decompressor::chain::{PatchChain, RemovalPlan};
use mhws_tex_decompressor::chunk::ChunkName;

fn parse(s: &str) -> ChunkName {
    ChunkName::try_from_str(s).unwrap()
}

#[test]
fn next_patch_id_is_one_above_the_highest() {
    let sub = parse("re_chunk_000.pak.sub_000.pak");
    let chain = PatchChain::new(vec![
        sub.clone(),
        sub.with_sub_patch(1),
        sub.with_sub_patch(2),
        sub.with_sub_patch(4),
    ]);
    assert_eq!(chain.next_patch_id(&sub), Some(5));
}

#[test]
fn next_patch_id_of_an_empty_series_is_one() {
    let sub = parse("re_chunk_000.pak.sub_000.pak");
    assert_eq!(PatchChain::new(vec![]).next_patch_id(&sub), Some(1));
    // names of other series do not count
    let other = parse("re_chunk_001.pak.sub_000.pak");
    let chain = PatchChain::new(vec![other.with_sub_patch(9), sub.clone()]);
    assert_eq!(chain.next_patch_id(&sub), Some(1));
}

#[test]
fn next_patch_id_does_not_depend_on_discovery_order() {
    let sub = parse("re_chunk_003.pak.sub_001.pak");
    let a = PatchChain::new(vec![sub.with_sub_patch(4), sub.with_sub_patch(1), sub.with_sub_patch(2)]);
    let b = PatchChain::new(vec![sub.with_sub_patch(2), sub.with_sub_patch(4), sub.with_sub_patch(1)]);
    assert_eq!(a.next_patch_id(&sub), Some(5));
    assert_eq!(b.next_patch_id(&sub), Some(5));
}

#[test]
fn next_patch_id_overflow_is_none() {
    let sub = parse("re_chunk_000.pak.sub_000.pak");
    let chain = PatchChain::new(vec![sub.with_sub_patch(u32::MAX)]);
    assert_eq!(chain.next_patch_id(&sub), None);
}

#[test]
fn register_makes_new_patches_visible() {
    let sub = parse("re_chunk_000.pak.sub_000.pak");
    let mut chain = PatchChain::new(vec![sub.clone()]);
    let first = chain.next_patch_id(&sub).unwrap();
    assert_eq!(first, 1);
    chain.register(sub.with_sub_patch(first));
    assert_eq!(chain.next_patch_id(&sub), Some(2));
}

#[test]
fn removal_keeps_the_chain_contiguous() {
    let base = parse("re_chunk_000.pak");
    let p1 = parse("re_chunk_000.pak.patch_001.pak");
    let p2 = parse("re_chunk_000.pak.patch_002.pak");
    let p3 = parse("re_chunk_000.pak.patch_003.pak");
    let mut chain = PatchChain::new(vec![base, p1.clone(), p2.clone(), p3.clone()]);
    assert_eq!(chain.plan_removal(&p2), RemovalPlan::DeletePlaceholder);
    assert_eq!(chain.plan_removal(&p3), RemovalPlan::DeleteFinal);
    chain.remove(&p3);
    assert_eq!(chain.names.len(), 3);
    assert_eq!(chain.plan_removal(&p2), RemovalPlan::DeleteFinal);
    assert_eq!(chain.plan_removal(&p1), RemovalPlan::DeletePlaceholder);
}

#[test]
fn sub_patch_removal_looks_only_at_its_own_sub() {
    let s0 = parse("re_chunk_000.pak.sub_000.pak");
    let s1 = parse("re_chunk_000.pak.sub_001.pak");
    let chain = PatchChain::new(vec![s0.with_sub_patch(1), s1.with_sub_patch(2)]);
    assert_eq!(chain.plan_removal(&s0.with_sub_patch(1)), RemovalPlan::DeleteFinal);
    let chain = PatchChain::new(vec![s0.with_sub_patch(1), s0.with_sub_patch(2)]);
    assert_eq!(chain.plan_removal(&s0.with_sub_patch(1)), RemovalPlan::DeletePlaceholder);
}

#[test]
fn batch_removal_from_the_top_deletes_all() {
    let sub = parse("re_chunk_000.pak.sub_000.pak");
    let mut chain = PatchChain::new(vec![
        sub.clone(),
        sub.with_sub_patch(1),
        sub.with_sub_patch(2),
        sub.with_sub_patch(3),
    ]);
    let plans = chain.plan_removals(&vec![sub.with_sub_patch(3), sub.with_sub_patch(2)]);
    assert_eq!(plans, vec![RemovalPlan::DeleteFinal, RemovalPlan::DeleteFinal]);
    assert_eq!(chain.names.len(), 2);
    assert_eq!(chain.next_patch_id(&sub), Some(2));
}

#[test]
fn batch_removal_below_a_kept_patch_uses_placeholders() {
    let sub = parse("re_chunk_000.pak.sub_000.pak");
    let mut chain = PatchChain::new(vec![
        sub.with_sub_patch(1),
        sub.with_sub_patch(2),
        sub.with_sub_patch(3),
    ]);
    let plans = chain.plan_removals(&vec![sub.with_sub_patch(2), sub.with_sub_patch(1)]);
    assert_eq!(plans, vec![RemovalPlan::DeletePlaceholder, RemovalPlan::DeletePlaceholder]);
    assert_eq!(chain.names.len(), 3);
}

#[test]
fn series_is_base_and_sub_whatever_the_patch_id() {
    let sub = parse("re_chunk_000.pak.sub_000.pak");
    let chain = PatchChain::new(vec![
        sub.with_sub_patch(1),
        sub.with_sub_patch(2),
        parse("re_chunk_000.pak.patch_003.pak.sub_000.pak.patch_004.pak"),
    ]);
    assert_eq!(chain.next_patch_id(&sub), Some(5));
}

#[test]
fn chunks_of_one_series_see_each_others_new_patches() {
    let first = parse("re_chunk_000.pak.sub_000.pak");
    let second = parse("re_chunk_000.pak.patch_001.pak.sub_000.pak");
    let mut chain = PatchChain::new(vec![first.with_sub_patch(2)]);
    let a = chain.next_patch_id(&first).unwrap();
    assert_eq!(a, 3);
    chain.register(first.with_sub_patch(a));
    assert_eq!(chain.next_patch_id(&second), Some(4));
}
