use mediamon::ingest::{decode_image, detect_format, prepare_input};
use mediamon::letterbox::{RawImage, CANVAS_SIZE};
use mediamon::ranker::{scores_from_bits, select_tags, Policy, SegmentLayout};
use mediamon::resolver::{catalog_query, resolve_lookup, TagRow};

fn stub_scorer(tensor: &[u8]) -> Vec<f32> {
    assert_eq!(tensor.len(), 512 * 512 * 3);
    vec![0.10, 0.80, 0.30, 0.95, 0.20, 0.60, 0.05, 0.70, 0.65, 0.01, 0.40, 0.90]
}

fn stub_catalog(ids: &[i64]) -> Vec<TagRow> {
    let names = ["", "one", "two", "three", "four", "five", "six", "seven", "eight", "nine"];
    let mut rows: Vec<TagRow> = ids
        .iter()
        .filter(|id| (**id as usize) < names.len())
        .map(|id| TagRow { name: names[*id as usize].to_string(), tag_id: *id })
        .collect();
    rows.sort_by_key(|r| r.tag_id);
    rows.dedup_by_key(|r| r.tag_id);
    rows
}

#[test]
fn white_image_through_the_pipeline() {
    let image = RawImage { width: 100, height: 200, pixels: vec![255; 100 * 200 * 3] };
    let tensor = prepare_input(&image, CANVAS_SIZE).unwrap();
    assert!(tensor.iter().all(|b| *b == 255));
    let scores: Vec<u32> = stub_scorer(&tensor).iter().map(|s| s.to_bits()).collect();
    let layout = SegmentLayout { character_start: 6, rating_start: 10 };
    let policy = Policy::FixedTopN { attributes: 2, characters: 1, rating: 1 };
    let tags = select_tags(scores_from_bits(&scores), layout, policy).unwrap();
    let ids = catalog_query(&tags);
    assert_eq!(ids, vec![2, 4, 8, 12]);
    let resolved = resolve_lookup(&tags, Some(stub_catalog(&ids))).unwrap();
    let golden: Vec<(Option<&str>, f32, usize)> = vec![
        (Some("two"), 0.80, 2),
        (Some("four"), 0.95, 4),
        (Some("eight"), 0.70, 8),
        (None, 0.90, 12),
    ];
    let got: Vec<(Option<&str>, f32, usize)> = resolved
        .iter()
        .map(|r| (r.name.as_deref(), f32::from_bits(r.score_bits), r.tag_id))
        .collect();
    assert_eq!(got, golden);
}

#[test]
fn png_upload_with_deployed_layout_matches_golden_list() {
    let white = image::RgbImage::from_pixel(100, 200, image::Rgb([255, 255, 255]));
    let mut png = std::io::Cursor::new(Vec::new());
    white.write_to(&mut png, image::ImageOutputFormat::Png).unwrap();
    let bytes = png.into_inner();
    let format = detect_format(&Some("image/png".to_string()), &None, &bytes).unwrap();
    let image = decode_image(&bytes, format).unwrap();
    assert_eq!((image.width, image.height), (100, 200));
    let tensor = prepare_input(&image, CANVAS_SIZE).unwrap();
    assert_eq!(tensor.len(), 512 * 512 * 3);
    let scores: Vec<u32> = (0..9176).map(|i| (i as f32).to_bits()).collect();
    let tags = select_tags(
        scores_from_bits(&scores),
        SegmentLayout::deepdanbooru(),
        Policy::default_top_n(),
    )
    .unwrap();
    let ids = catalog_query(&tags);
    let rows: Vec<TagRow> = ids.iter().map(|id| TagRow { name: format!("t{id}"), tag_id: *id }).collect();
    let resolved = resolve_lookup(&tags, Some(rows)).unwrap();
    let got: Vec<(String, (f32, usize))> = resolved
        .into_iter()
        .map(|r| (r.name.unwrap(), (f32::from_bits(r.score_bits), r.tag_id)))
        .collect();
    let golden: Vec<(String, (f32, usize))> = (6852..=6891)
        .chain(9169..=9173)
        .chain([9176])
        .map(|id: usize| (format!("t{id}"), ((id - 1) as f32, id)))
        .collect();
    assert_eq!(got.len(), 46);
    assert_eq!(got, golden);
}
