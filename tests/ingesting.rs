use std::collections::HashSet;

use image::ImageFormat::{Gif, Jpeg, Png};

use mediamon::error::PipelineError;
use mediamon::ingest::{decode_image, detect_format, pick_format, temp_file_path};
use mediamon::storage::Folder;

fn png_bytes() -> Vec<u8> {
    let img = image::RgbImage::from_raw(2, 1, vec![1, 2, 3, 4, 5, 6]).unwrap();
    let mut out = std::io::Cursor::new(Vec::new());
    img.write_to(&mut out, image::ImageOutputFormat::Png).unwrap();
    out.into_inner()
}

#[test]
fn mime_type_wins() {
    let f = detect_format(&Some("image/png".to_string()), &Some("a.jpg".to_string()), &vec![]);
    assert_eq!(f.unwrap(), Png);
}

#[test]
fn file_name_is_second() {
    let f = detect_format(&Some("text/plain".to_string()), &Some("photo.JPG".to_string()), &png_bytes());
    assert_eq!(f.unwrap(), Jpeg);
}

#[test]
fn content_is_last() {
    let f = detect_format(&None, &Some("notes".to_string()), &png_bytes());
    assert_eq!(f.unwrap(), Png);
}

#[test]
fn nothing_recognised_is_unknown_format() {
    let f = detect_format(&None, &None, &vec![0, 1, 2, 3]);
    assert_eq!(f, Err(PipelineError::UnknownFormat));
}

#[test]
fn pick_takes_first_answer() {
    assert_eq!(pick_format(None, Some(Gif), Some(Png)), Ok(Gif));
    assert_eq!(pick_format(Some(Jpeg), Some(Gif), None), Ok(Jpeg));
    assert_eq!(pick_format(None, None, None), Err(PipelineError::UnknownFormat));
}

#[test]
fn decodes_png() {
    let img = decode_image(&png_bytes(), Png).unwrap();
    assert_eq!((img.width, img.height), (2, 1));
    assert_eq!(img.pixels, vec![1, 2, 3, 4, 5, 6]);
}

#[test]
fn corrupt_bytes_are_corrupt_image() {
    let r = decode_image(&vec![0x89, b'P', b'N', b'G', 0, 0], Png);
    assert!(matches!(r, Err(PipelineError::CorruptImage)));
}

#[test]
fn temp_paths_never_collide() {
    let mut seen = HashSet::new();
    for _ in 0..10_000 {
        let p = temp_file_path("/tmp");
        assert!(p.starts_with("/tmp/"));
        assert_eq!(p.len(), 5 + 36);
        let token: Vec<char> = p[5..].chars().collect();
        for (i, c) in token.iter().enumerate() {
            if [8, 13, 18, 23].contains(&i) {
                assert_eq!(*c, '-');
            } else {
                assert!(c.is_ascii_digit() || ('a'..='f').contains(c));
            }
        }
        assert_eq!(token[14], '4');
        assert!("89ab".contains(token[19]));
        assert!(seen.insert(p));
    }
}

#[test]
fn folder_paths() {
    let folder = Folder("/data/img".to_string());
    let a = folder.file_path("png");
    let b = folder.file_path("png");
    assert!(a.starts_with("/data/img/"));
    assert!(a.ends_with(".png"));
    assert_eq!(a.len(), 10 + 26 + 4);
    let id = &a[10..36];
    assert!(id.chars().all(|c| "0123456789ABCDEFGHJKMNPQRSTVWXYZ".contains(c)));
    assert!(id.chars().next().unwrap() <= '7');
    assert_ne!(a, b);
    let bare = folder.file_path("");
    assert_eq!(bare.len(), 10 + 26);
    assert!(!bare.contains('.'));
}
