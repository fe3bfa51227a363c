use mediamon::error::PipelineError;
use mediamon::ranker::ScoredTag;
use mediamon::resolver::{
    catalog_query, lookup_name, resolve_lookup, resolve_tags, sort_by_id_stable, TagRow,
};

fn tag(score: f32, tag_id: usize) -> ScoredTag {
    ScoredTag { score_bits: score.to_bits(), tag_id }
}

fn row(tag_id: i64, name: &str) -> TagRow {
    TagRow { name: name.to_string(), tag_id }
}

#[test]
fn names_follow_ids_in_any_order() {
    for rows in [vec![row(5, "fox"), row(9, "sky")], vec![row(9, "sky"), row(5, "fox")]] {
        for tags in [vec![tag(0.7, 5), tag(0.4, 9)], vec![tag(0.4, 9), tag(0.7, 5)]] {
            let out = resolve_tags(&tags, &rows);
            assert_eq!(out.len(), 2);
            assert_eq!(out[0].tag_id, 5);
            assert_eq!(out[0].name.as_deref(), Some("fox"));
            assert_eq!(f32::from_bits(out[0].score_bits), 0.7);
            assert_eq!(out[1].tag_id, 9);
            assert_eq!(out[1].name.as_deref(), Some("sky"));
            assert_eq!(f32::from_bits(out[1].score_bits), 0.4);
        }
    }
}

#[test]
fn output_is_stably_sorted_by_id() {
    let tags = vec![tag(0.2, 9), tag(0.1, 3), tag(0.9, 3), tag(0.5, 1)];
    let sorted = sort_by_id_stable(&tags);
    assert_eq!(sorted, vec![tag(0.5, 1), tag(0.1, 3), tag(0.9, 3), tag(0.2, 9)]);
    let out = resolve_tags(&tags, &vec![row(3, "cat")]);
    let got: Vec<(usize, f32, Option<&str>)> = out
        .iter()
        .map(|r| (r.tag_id, f32::from_bits(r.score_bits), r.name.as_deref()))
        .collect();
    assert_eq!(
        got,
        vec![(1, 0.5, None), (3, 0.1, Some("cat")), (3, 0.9, Some("cat")), (9, 0.2, None)]
    );
}

#[test]
fn unknown_id_is_marked_not_dropped() {
    let rows = vec![row(5, "fox")];
    let out = resolve_tags(&vec![tag(0.4, 9), tag(0.7, 5)], &rows);
    assert_eq!(out.len(), 2);
    assert_eq!(out[0].name.as_deref(), Some("fox"));
    assert_eq!(out[1].tag_id, 9);
    assert_eq!(out[1].name, None);
}

#[test]
fn duplicate_ids_resolve_independently() {
    let rows = vec![row(3, "cat")];
    let out = resolve_tags(&vec![tag(0.9, 3), tag(0.8, 3)], &rows);
    assert_eq!(out.len(), 2);
    assert!(out.iter().all(|r| r.name.as_deref() == Some("cat")));
    assert_eq!(f32::from_bits(out[1].score_bits), 0.8);
}

#[test]
fn query_lists_every_id() {
    let ids = catalog_query(&vec![tag(0.1, 4), tag(0.2, 4), tag(0.3, 11)]);
    assert_eq!(ids, vec![4, 4, 11]);
}

#[test]
fn lookup_uses_first_matching_row() {
    let rows = vec![row(-1, "neg"), row(2, "two"), row(2, "again")];
    assert_eq!(lookup_name(&rows, 2).as_deref(), Some("two"));
    assert_eq!(lookup_name(&rows, 1), None);
    assert_eq!(lookup_name(&Vec::new(), 1), None);
}

#[test]
fn failed_lookup_fails_the_request() {
    let r = resolve_lookup(&vec![tag(0.5, 1)], None);
    assert!(matches!(r, Err(PipelineError::CatalogUnavailable)));
    let ok = resolve_lookup(&vec![tag(0.5, 1)], Some(vec![row(1, "one")])).unwrap();
    assert_eq!(ok[0].name.as_deref(), Some("one"));
}
