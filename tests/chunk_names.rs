use mhws_tex_decompressor::chunk::{ChunkComponent, ChunkName};
use mhws_tex_decompressor::chunk_text::ChunkNameError;
use std::cmp::Ordering;

fn parse(s: &str) -> ChunkName {
    ChunkName::try_from_str(s).unwrap()
}

#[test]
fn test_chunk_name_formats() {
    // Test base chunk
    let base = ChunkName::new(0);
    assert_eq!(base.to_string(), "re_chunk_000.pak");

    // Test patch chunk
    let patch = ChunkName::try_from_str("re_chunk_000.pak.patch_001.pak").unwrap();
    assert_eq!(patch.to_string(), "re_chunk_000.pak.patch_001.pak");

    // Test sub chunk
    let sub = ChunkName::try_from_str("re_chunk_000.pak.sub_000.pak").unwrap();
    assert_eq!(sub.to_string(), "re_chunk_000.pak.sub_000.pak");

    // Test sub patch chunk
    let sub_patch = ChunkName::try_from_str("re_chunk_000.pak.sub_000.pak.patch_001.pak").unwrap();
    assert_eq!(sub_patch.to_string(), "re_chunk_000.pak.sub_000.pak.patch_001.pak");

    // Test DLC chunk
    let dlc = ChunkName::try_from_str("re_dlc_stm_3308900.pak").unwrap();
    assert_eq!(dlc.to_string(), "re_dlc_stm_3308900.pak");
}

#[test]
fn test_chunk_helper_methods() {
    // Test base chunk helper methods
    let base = ChunkName::new(123);
    assert_eq!(base.major_id(), Some(123));
    assert_eq!(base.patch_id(), None);
    assert_eq!(base.sub_id(), None);
    assert_eq!(base.sub_patch_id(), None);

    // Test complex chunk helper methods
    let complex = ChunkName::try_from_str("re_chunk_456.pak.sub_789.pak.patch_012.pak").unwrap();
    assert_eq!(complex.major_id(), Some(456));
    assert_eq!(complex.patch_id(), None);
    assert_eq!(complex.sub_id(), Some(789));
    assert_eq!(complex.sub_patch_id(), Some(12));

    // Test DLC chunk helper methods
    let dlc = ChunkName::try_from_str("re_dlc_stm_3308900.pak").unwrap();
    assert_eq!(dlc.major_id(), None);
}

#[test]
fn test_with_sub_patch() {
    let base = ChunkName::try_from_str("re_chunk_000.pak.sub_001.pak").unwrap();
    let with_patch = base.with_sub_patch(99);

    assert_eq!(with_patch.major_id(), Some(0));
    assert_eq!(with_patch.sub_id(), Some(1));
    assert_eq!(with_patch.sub_patch_id(), Some(99));
    assert_eq!(with_patch.to_string(), "re_chunk_000.pak.sub_001.pak.patch_099.pak");
    assert_eq!(base.to_string(), "re_chunk_000.pak.sub_001.pak");
}

#[test]
fn parse_classifies_components() {
    let name = parse("re_chunk_000.pak.patch_002.pak");
    assert_eq!(name.components, vec![ChunkComponent::Base(0), ChunkComponent::Patch(2)]);
    let name = parse("re_chunk_000.pak.sub_003.pak.patch_004.pak");
    assert_eq!(
        name.components,
        vec![ChunkComponent::Base(0), ChunkComponent::Sub(3), ChunkComponent::SubPatch(4)]
    );
    let name = parse("re_dlc_stm_3308900.pak");
    assert_eq!(name.components, vec![ChunkComponent::Dlc("stm_3308900".to_string())]);
}

#[test]
fn parse_rejects_malformed_names() {
    assert_eq!(ChunkName::try_from_str(""), Err(ChunkNameError::InvalidFormat));
    assert_eq!(ChunkName::try_from_str("re_chunk_000"), Err(ChunkNameError::InvalidFormat));
    assert_eq!(ChunkName::try_from_str("re_chunk_000.pak.sub_000"), Err(ChunkNameError::InvalidFormat));
    assert_eq!(ChunkName::try_from_str("re_chunk_000.zip"), Err(ChunkNameError::InvalidFormat));
    assert_eq!(ChunkName::try_from_str("foo_000.pak"), Err(ChunkNameError::InvalidComponent));
    assert_eq!(ChunkName::try_from_str("re_chunk_abc.pak"), Err(ChunkNameError::InvalidNumericId));
    assert_eq!(ChunkName::try_from_str("re_chunk_.pak"), Err(ChunkNameError::InvalidNumericId));
    assert_eq!(
        ChunkName::try_from_str("re_chunk_4294967296.pak"),
        Err(ChunkNameError::InvalidNumericId)
    );
    assert_eq!(
        ChunkName::try_from_str("re_chunk_000.pak.patch_x.pak"),
        Err(ChunkNameError::InvalidNumericId)
    );
}

#[test]
fn parse_reads_numbers_like_u32_from_str() {
    assert_eq!(parse("re_chunk_4294967295.pak").major_id(), Some(u32::MAX));
    assert_eq!(parse("re_chunk_+7.pak").major_id(), Some(7));
    assert_eq!(parse("re_chunk_5.pak").to_string(), "re_chunk_005.pak");
    assert_eq!(parse("re_chunk_1234.pak").to_string(), "re_chunk_1234.pak");
}

#[test]
fn format_then_parse_gives_the_name_back() {
    let names = vec![
        ChunkName::new(7),
        ChunkName::new(1234),
        parse("re_chunk_000.pak.sub_012.pak").with_sub_patch(3),
        parse("re_chunk_010.pak.patch_100.pak"),
        parse("re_dlc_stm_3308900.pak"),
    ];
    for n in names {
        let text = n.to_string();
        let back = ChunkName::try_from_str(&text).unwrap();
        assert_eq!(back.to_string(), text);
        assert_eq!(back.compare(&n), Ordering::Equal);
    }
}

#[test]
fn order_puts_shorter_names_and_kinds_first() {
    let base = parse("re_chunk_000.pak");
    let dlc = parse("re_dlc_stm_3308900.pak");
    let patch = parse("re_chunk_000.pak.patch_001.pak");
    let sub = parse("re_chunk_000.pak.sub_000.pak");
    let sub_patch = parse("re_chunk_000.pak.sub_000.pak.patch_001.pak");
    assert_eq!(base.compare(&dlc), Ordering::Less);
    assert_eq!(dlc.compare(&base), Ordering::Greater);
    assert_eq!(sub.compare(&patch), Ordering::Less);
    assert_eq!(patch.compare(&sub_patch), Ordering::Less);
    assert_eq!(parse("re_chunk_001.pak").compare(&base), Ordering::Greater);
    assert_eq!(base.compare(&ChunkName::new(0)), Ordering::Equal);
    assert_eq!(
        parse("re_dlc_a.pak").compare(&parse("re_dlc_b.pak")),
        Ordering::Less
    );
}

#[test]
fn sort_orders_mixed_names() {
    let texts = [
        "re_chunk_000.pak.sub_000.pak.patch_002.pak",
        "re_chunk_000.pak.patch_001.pak",
        "re_dlc_stm_3308900.pak",
        "re_chunk_000.pak.sub_000.pak",
        "re_chunk_000.pak",
        "re_chunk_000.pak.sub_000.pak.patch_001.pak",
    ];
    let mut sorted: Vec<ChunkName> = texts.iter().map(|t| parse(t)).collect();
    sorted.sort_by(|a, b| a.compare(b));
    let out: Vec<String> = sorted.iter().map(|n| n.to_string()).collect();
    assert_eq!(
        out,
        vec![
            "re_chunk_000.pak",
            "re_dlc_stm_3308900.pak",
            "re_chunk_000.pak.sub_000.pak",
            "re_chunk_000.pak.patch_001.pak",
            "re_chunk_000.pak.sub_000.pak.patch_001.pak",
            "re_chunk_000.pak.sub_000.pak.patch_002.pak",
        ]
    );
    for i in 0..sorted.len() {
        for j in 0..sorted.len() {
            let a = sorted[i].compare(&sorted[j]);
            let b = sorted[j].compare(&sorted[i]);
            assert_eq!(a, b.reverse());
            assert_eq!(a, i.cmp(&j));
        }
    }
}
