use conduit::error::Error;
use conduit::media::{plan_thumbnail, thumbnail_dimensions, FileMeta, Media, ThumbnailPlan};
use conduit::tree::Tree;

fn new_media() -> Media {
    Media { mediaid_file: Tree::new() }
}

fn png(width: u32, height: u32) -> Vec<u8> {
    let mut pixels = image::RgbImage::new(width, height);
    for (x, y, pixel) in pixels.enumerate_pixels_mut() {
        *pixel = image::Rgb([(x % 256) as u8, (y % 256) as u8, 128]);
    }
    let mut bytes = Vec::new();
    image::DynamicImage::ImageRgb8(pixels)
        .write_to(&mut bytes, image::ImageOutputFormat::Png)
        .unwrap();
    bytes
}

fn key(mxc: &str, width: u32, height: u32, filename: &str, content_type: &str) -> Vec<u8> {
    let mut key = mxc.as_bytes().to_vec();
    key.push(0xff);
    key.extend_from_slice(&width.to_be_bytes());
    key.extend_from_slice(&height.to_be_bytes());
    key.push(0xff);
    key.extend_from_slice(filename.as_bytes());
    key.push(0xff);
    key.extend_from_slice(content_type.as_bytes());
    key
}

const MXC: &str = "mxc://example.org/abc";

#[test]
fn file_meta_holds_a_file() {
    let meta = FileMeta {
        filename: Some("a.txt".to_owned()),
        content_type: None,
        file: vec![1, 2, 3],
    };
    assert_eq!(meta.filename.as_deref(), Some("a.txt"));
    assert_eq!(meta.content_type, None);
    assert_eq!(meta.file, vec![1, 2, 3]);
}

#[test]
fn an_uploaded_file_is_downloaded() {
    let mut media = new_media();
    media.create(
        MXC.to_owned(),
        &Some("cat.png".to_owned()),
        &Some("image/png".to_owned()),
        b"PNG..",
    );
    assert_eq!(
        media.mediaid_file.iter(),
        vec![(key(MXC, 0, 0, "cat.png", "image/png"), b"PNG..".to_vec())]
    );
    let meta = media.get(MXC).unwrap().unwrap();
    assert_eq!(meta.filename, Some("cat.png".to_owned()));
    assert_eq!(meta.content_type, Some("image/png".to_owned()));
    assert_eq!(meta.file, b"PNG..".to_vec());
    assert!(media.get("mxc://example.org/other").unwrap().is_none());
}

#[test]
fn a_file_without_name_has_none() {
    let mut media = new_media();
    media.create(MXC.to_owned(), &None, &None, b"data");
    let meta = media.get(MXC).unwrap().unwrap();
    assert_eq!(meta.filename, None);
    assert_eq!(meta.content_type, Some(String::new()));
}

#[test]
fn broken_media_keys_are_reported() {
    let mut media = new_media();
    let mut broken = key(MXC, 0, 0, "name", "");
    broken.push(0xfe);
    media.mediaid_file.insert(&broken, b"x");
    match media.get(MXC) {
        Err(Error::BadDatabase(message)) => {
            assert_eq!(message, "Content type in mediaid_file is invalid unicode.")
        }
        _ => panic!("a broken content type was read"),
    }
    media.mediaid_file.clear();
    let mut broken = MXC.as_bytes().to_vec();
    broken.extend_from_slice(b"\xff\x00\x00\x00\x00\x00\x00\x00\x00\xff\xfe\xfftext/plain");
    media.mediaid_file.insert(&broken, b"x");
    match media.get(MXC) {
        Err(Error::BadDatabase(message)) => {
            assert_eq!(message, "Filename in mediaid_file is invalid unicode.")
        }
        _ => panic!("a broken file name was read"),
    }
}

#[test]
fn thumbnail_sizes_are_rounded_up() {
    let media = new_media();
    assert_eq!(media.thumbnail_properties(0, 0), Some((32, 32, true)));
    assert_eq!(media.thumbnail_properties(32, 32), Some((32, 32, true)));
    assert_eq!(media.thumbnail_properties(33, 32), Some((96, 96, true)));
    assert_eq!(media.thumbnail_properties(96, 96), Some((96, 96, true)));
    assert_eq!(media.thumbnail_properties(97, 10), Some((320, 240, false)));
    assert_eq!(media.thumbnail_properties(320, 241), Some((640, 480, false)));
    assert_eq!(media.thumbnail_properties(567, 567), Some((800, 600, false)));
    assert_eq!(media.thumbnail_properties(800, 600), Some((800, 600, false)));
    assert_eq!(media.thumbnail_properties(801, 600), None);
    assert_eq!(media.thumbnail_properties(1, 601), None);
}

#[test]
fn thumbnail_dimensions_keep_the_aspect_ratio() {
    assert_eq!(thumbnail_dimensions(1600, 1200, 800, 600), (800, 600));
    assert_eq!(thumbnail_dimensions(1000, 1000, 800, 600), (800, 800));
    assert_eq!(thumbnail_dimensions(2000, 1000, 800, 600), (1200, 600));
    assert_eq!(thumbnail_dimensions(1000, 2000, 320, 240), (320, 640));
    assert_eq!(thumbnail_dimensions(1200, 1916, 800, 600), (800, 1277));
}

#[test]
fn thumbnails_are_planned_from_the_dimensions() {
    assert!(matches!(plan_thumbnail(None, 32, 32, true), ThumbnailPlan::SendOriginal));
    assert!(matches!(
        plan_thumbnail(Some((31, 100)), 32, 32, true),
        ThumbnailPlan::SendOriginal
    ));
    assert!(matches!(
        plan_thumbnail(Some((100, 31)), 32, 32, true),
        ThumbnailPlan::SendOriginal
    ));
    assert!(matches!(
        plan_thumbnail(Some((100, 100)), 32, 32, true),
        ThumbnailPlan::Crop(32, 32)
    ));
    assert!(matches!(
        plan_thumbnail(Some((2000, 1000)), 800, 600, false),
        ThumbnailPlan::Exact(1200, 600)
    ));
}

#[test]
fn a_cropped_thumbnail_is_made_and_saved() {
    let mut media = new_media();
    let original = png(200, 100);
    media.create(MXC.to_owned(), &Some("cat.png".to_owned()), &Some("image/png".to_owned()), &original);
    let meta = media.get_thumbnail(MXC.to_owned(), 32, 32).unwrap().unwrap();
    assert_eq!(meta.filename, Some("cat.png".to_owned()));
    assert_eq!(meta.content_type, Some("image/png".to_owned()));
    assert_ne!(meta.file, original);
    let thumbnail = image::load_from_memory(&meta.file).unwrap();
    assert_eq!((image::GenericImageView::width(&thumbnail), image::GenericImageView::height(&thumbnail)), (32, 32));
    assert_eq!(
        media.mediaid_file.get(&key(MXC, 32, 32, "cat.png", "image/png")),
        Some(meta.file.clone())
    );
    assert_eq!(media.mediaid_file.len(), 2);
    let again = media.get_thumbnail(MXC.to_owned(), 20, 20).unwrap().unwrap();
    assert_eq!(again.file, meta.file);
    assert_eq!(media.mediaid_file.len(), 2);
}

#[test]
fn a_scaled_thumbnail_keeps_the_aspect_ratio() {
    let mut media = new_media();
    media.create(MXC.to_owned(), &None, &Some("image/png".to_owned()), &png(1000, 500));
    let meta = media.get_thumbnail(MXC.to_owned(), 300, 200).unwrap().unwrap();
    let thumbnail = image::load_from_memory(&meta.file).unwrap();
    assert_eq!((image::GenericImageView::width(&thumbnail), image::GenericImageView::height(&thumbnail)), (480, 240));
    assert!(media.mediaid_file.contains_key(&key(MXC, 320, 240, "", "image/png")));
}

#[test]
fn a_small_image_is_sent_as_it_is() {
    let mut media = new_media();
    let original = png(20, 20);
    media.create(MXC.to_owned(), &None, &None, &original);
    let meta = media.get_thumbnail(MXC.to_owned(), 32, 32).unwrap().unwrap();
    assert_eq!(meta.file, original);
    assert_eq!(media.mediaid_file.len(), 1);
}

#[test]
fn a_file_that_is_no_image_is_sent_as_it_is() {
    let mut media = new_media();
    media.create(MXC.to_owned(), &Some("notes.txt".to_owned()), &None, b"plain text");
    let meta = media.get_thumbnail(MXC.to_owned(), 96, 96).unwrap().unwrap();
    assert_eq!(meta.file, b"plain text".to_vec());
    assert_eq!(meta.filename, Some("notes.txt".to_owned()));
}

#[test]
fn a_large_thumbnail_is_the_file_itself() {
    let mut media = new_media();
    let original = png(50, 50);
    media.create(MXC.to_owned(), &None, &None, &original);
    let meta = media.get_thumbnail(MXC.to_owned(), 2000, 2000).unwrap().unwrap();
    assert_eq!(meta.file, original);
}

#[test]
fn no_thumbnail_of_a_missing_file() {
    let mut media = new_media();
    assert!(media.get_thumbnail(MXC.to_owned(), 32, 32).unwrap().is_none());
    assert!(media.get_thumbnail(MXC.to_owned(), 2000, 2000).unwrap().is_none());
}

#[test]
fn an_uploaded_thumbnail_is_used() {
    let mut media = new_media();
    media.create(MXC.to_owned(), &None, &None, &png(200, 200));
    media.upload_thumbnail(MXC.to_owned(), &None, &Some("image/png".to_owned()), 96, 96, b"ready");
    let meta = media.get_thumbnail(MXC.to_owned(), 90, 90).unwrap().unwrap();
    assert_eq!(meta.file, b"ready".to_vec());
    assert_eq!(meta.content_type, Some("image/png".to_owned()));
}
