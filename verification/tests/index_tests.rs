use coco_border_stats::coco::{Annotation, Bbox, Category, Coco, CocoIndex, Image};
use coco_border_stats::error::SampleError;

fn image(id: &str, file_name: &str) -> Image {
    Image { id: id.to_string(), file_name: file_name.to_string() }
}

fn annotation(id: &str, category_id: u32, image_id: &str) -> Annotation {
    Annotation {
        id: id.to_string(),
        category_id,
        image_id: image_id.to_string(),
        bbox: Bbox { x: 1, y: 1, w: 2, h: 2 },
    }
}

fn category(id: u32, name: &str) -> Category {
    Category { id, name: name.to_string() }
}

#[test]
fn empty_dataset_indexes_empty() {
    let coco = Coco::new();
    let index = CocoIndex::new(&coco);
    assert_eq!(index.images.len(), 0);
    assert_eq!(index.annotations.len(), 0);
    assert_eq!(index.annotations_by_image_id.len(), 0);
    assert_eq!(index.categories.len(), 0);
    assert!(index.image_by_id("i1").is_none());
    assert!(index.annotation_by_id("a1").is_none());
    assert!(index.annotations_for_image("i1").is_none());
    assert!(index.category_by_id(1).is_none());
}

#[test]
fn image_lookup_first_occurrence_wins() {
    let mut coco = Coco::new();
    coco.images = vec![image("i1", "first.png"), image("i2", "other.png"), image("i1", "second.png")];
    let index = CocoIndex::new(&coco);
    assert_eq!(index.images.len(), 2);
    assert_eq!(index.image_by_id("i1").unwrap().file_name, "first.png");
    assert_eq!(index.image_by_id("i2").unwrap().file_name, "other.png");
    assert!(index.image_by_id("i3").is_none());
}

#[test]
fn category_lookup_first_occurrence_wins() {
    let mut coco = Coco::new();
    coco.categories = vec![category(7, "cat"), category(9, "dog"), category(7, "bird")];
    let index = CocoIndex::new(&coco);
    assert_eq!(index.categories.len(), 2);
    assert_eq!(index.category_by_id(7).unwrap().name, "cat");
    assert_eq!(index.category_by_id(9).unwrap().name, "dog");
    assert!(index.category_by_id(8).is_none());
}

#[test]
fn duplicate_annotation_id_asymmetry() {
    // Two annotations share an id: the id lookup keeps only the first, but
    // the per-image grouping still lists both.
    let mut coco = Coco::new();
    coco.annotations = vec![annotation("a1", 1, "i1"), annotation("a1", 2, "i1")];
    let index = CocoIndex::new(&coco);
    assert_eq!(index.annotations.len(), 1);
    assert_eq!(index.annotation_by_id("a1").unwrap().category_id, 1);
    let group = index.annotations_for_image("i1").unwrap();
    assert_eq!(group.len(), 2);
    assert_eq!(group[0].category_id, 1);
    assert_eq!(group[1].category_id, 2);
}

#[test]
fn grouping_preserves_input_order_per_image() {
    let mut coco = Coco::new();
    coco.annotations = vec![
        annotation("a1", 1, "i1"),
        annotation("a2", 2, "i2"),
        annotation("a3", 3, "i1"),
        annotation("a4", 4, "i1"),
    ];
    let index = CocoIndex::new(&coco);
    assert_eq!(index.annotations.len(), 4);
    let g1 = index.annotations_for_image("i1").unwrap();
    assert_eq!(g1.len(), 3);
    assert_eq!(g1[0].id, "a1");
    assert_eq!(g1[1].id, "a3");
    assert_eq!(g1[2].id, "a4");
    let g2 = index.annotations_for_image("i2").unwrap();
    assert_eq!(g2.len(), 1);
    assert_eq!(g2[0].id, "a2");
    assert!(index.annotations_for_image("i3").is_none());
}

#[test]
fn image_for_annotation_resolves_or_fails() {
    let mut coco = Coco::new();
    coco.images = vec![image("i1", "a.png")];
    coco.annotations = vec![annotation("a1", 1, "i1"), annotation("a2", 1, "nowhere")];
    let index = CocoIndex::new(&coco);
    let known = index.annotation_by_id("a1").unwrap();
    assert_eq!(index.image_for_annotation(known).unwrap().file_name, "a.png");
    let orphan = index.annotation_by_id("a2").unwrap();
    assert_eq!(index.image_for_annotation(orphan).unwrap_err(), SampleError::MissingImage);
}
