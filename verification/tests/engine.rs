use pagepack::images::ImageToPack;
use pagepack::packing::{pack_images, PackError, PlacedItem};
use pagepack::placement::{resolve_placement, was_rotated};
use pagepack::sizes::{to_mm, to_px};

/// The content area of an A4 page at 300 dots per inch with a 3 mm border,
/// computed the same way the command line does it.
fn a4_content_at_300() -> (usize, usize) {
    let border = to_px(3_000, 300);
    let w = to_px(210_000, 300) - 2 * border;
    let h = to_px(297_000, 300) - 2 * border;
    (w as usize, h as usize)
}

fn img(path: &str, w: u32, h: u32, margin: u32) -> ImageToPack {
    ImageToPack { path: path.to_string(), width: w + 2 * margin, height: h + 2 * margin, margin }
}

fn overlapping(a: &PlacedItem, b: &PlacedItem) -> bool {
    let (ar, br) = (&a.rect, &b.rect);
    !(ar.x + ar.w <= br.x || br.x + br.w <= ar.x || ar.y + ar.h <= br.y || br.y + br.h <= ar.y)
}

fn check_pages(pages: &[Vec<PlacedItem>], width: usize, height: usize) {
    for page in pages {
        assert!(!page.is_empty());
        for item in page {
            assert!(item.rect.x + item.rect.w <= width);
            assert!(item.rect.y + item.rect.h <= height);
            let kept = item.rect.w == item.data.width as usize
                && item.rect.h == item.data.height as usize;
            let turned = item.rect.w == item.data.height as usize
                && item.rect.h == item.data.width as usize;
            assert!(kept || turned);
        }
        for (i, a) in page.iter().enumerate() {
            for (j, b) in page.iter().enumerate() {
                if i != j {
                    assert!(!overlapping(a, b));
                }
            }
        }
    }
}

fn all_paths(pages: &[Vec<PlacedItem>]) -> Vec<String> {
    let mut paths: Vec<String> = pages
        .iter()
        .flat_map(|p| p.iter().map(|it| it.data.path.clone()))
        .collect();
    paths.sort();
    paths
}

#[test]
fn two_photos_share_one_page() {
    // a 210 x 297 mm page at 300 dots per inch, 3 mm border, 1 mm margin
    // halved as in the command line, two images of 2000 x 1500 pixels
    let (w, h) = a4_content_at_300();
    assert_eq!((w, h), (2410, 3438));
    let margin = (to_px(1_000, 300) / 2) as u32;
    let images = vec![img("a.png", 2000, 1500, margin), img("b.png", 2000, 1500, margin)];
    let pages = pack_images(w, h, images).expect("both images fit");
    assert_eq!(pages.len(), 1);
    assert_eq!(pages[0].len(), 2);
    check_pages(&pages, w, h);
    assert_eq!(all_paths(&pages), vec!["a.png".to_string(), "b.png".to_string()]);
    // rotation is inferred exactly from the aspect comparison
    for item in &pages[0] {
        let rotated = was_rotated(2000 + 2 * margin, 1500 + 2 * margin, &item.rect);
        assert_eq!(rotated, item.data.width as usize > item.data.height as usize
            && item.rect.w <= item.rect.h);
    }
}

#[test]
fn oversized_image_is_fatal() {
    let (w, h) = a4_content_at_300();
    let images = vec![img("huge.png", 10_000, 10_000, 0)];
    let r = pack_images(w, h, images);
    assert!(matches!(r, Err(PackError::ImageTooLargeForPage)));
}

#[test]
fn oversized_image_aborts_whole_batch() {
    // a small image that fits cannot rescue the run: the oversized one
    // still fails once it stands alone on an empty page
    let (w, h) = a4_content_at_300();
    let images = vec![img("small.png", 100, 100, 0), img("huge.png", 10_000, 10_000, 0)];
    let r = pack_images(w, h, images);
    assert!(matches!(r, Err(PackError::ImageTooLargeForPage)));
}

#[test]
fn overflow_spills_onto_more_pages() {
    // five images that fit one by one but together exceed one page's area
    let (w, h) = a4_content_at_300();
    let images: Vec<ImageToPack> =
        ["p1", "p2", "p3", "p4", "p5"].iter().map(|p| img(p, 1500, 1500, 0)).collect();
    let pages = pack_images(w, h, images).expect("each image fits alone");
    assert!(pages.len() >= 2);
    check_pages(&pages, w, h);
    assert_eq!(
        all_paths(&pages),
        vec!["p1".to_string(), "p2".to_string(), "p3".to_string(), "p4".to_string(),
            "p5".to_string()]
    );
}

#[test]
fn duplicate_identifiers_collapse() {
    // the identifier appears once, carrying the later descriptor
    let (w, h) = a4_content_at_300();
    let images = vec![img("same.png", 500, 400, 2), img("same.png", 300, 200, 1)];
    let pages = pack_images(w, h, images).expect("fits");
    assert_eq!(all_paths(&pages), vec!["same.png".to_string()]);
    assert_eq!(pages.len(), 1);
    let item = &pages[0][0];
    assert_eq!((item.data.width, item.data.height, item.data.margin), (302, 202, 1));
    check_pages(&pages, w, h);
}

#[test]
fn later_duplicate_keeps_first_position() {
    // two identifiers, the first one's descriptor replaced by a later
    // entry: the working set keeps the first-seen order
    let (w, h) = a4_content_at_300();
    let images = vec![
        img("a.png", 400, 300, 0),
        img("b.png", 400, 300, 0),
        img("a.png", 600, 500, 0),
    ];
    let pages = pack_images(w, h, images).expect("fits");
    assert_eq!(all_paths(&pages), vec!["a.png".to_string(), "b.png".to_string()]);
    for page in &pages {
        for item in page {
            if item.data.path == "a.png" {
                assert_eq!((item.data.width, item.data.height), (600, 500));
            } else {
                assert_eq!((item.data.width, item.data.height), (400, 300));
            }
        }
    }
    check_pages(&pages, w, h);
}

#[test]
fn no_images_make_no_pages() {
    let (w, h) = a4_content_at_300();
    let pages = pack_images(w, h, Vec::new()).expect("nothing to place");
    assert!(pages.is_empty());
}

#[test]
fn placement_position_and_inverse() {
    let (w, h) = a4_content_at_300();
    let margin = 6u32;
    let images = vec![img("one.png", 400, 300, margin)];
    let pages = pack_images(w, h, images).expect("fits");
    let item = &pages[0][0];
    let border = 3_000u64;
    let p = resolve_placement(item, border, 300);
    assert_eq!(p.x_mm, border + to_mm(item.rect.x as u64 + margin as u64, 300));
    assert_eq!(p.y_mm, border + to_mm(item.rect.y as u64 + margin as u64, 300));
    // the transform is invertible: back to the packed pixel offset
    assert_eq!(to_px(p.x_mm - border, 300) - margin as u64, item.rect.x as u64);
    assert_eq!(to_px(p.y_mm - border, 300) - margin as u64, item.rect.y as u64);
}
