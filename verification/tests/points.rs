use text_ingest::error::IngestError;
use text_ingest::ids::IdPool;
use text_ingest::points::assemble_points;

fn strings(items: &[&str]) -> Vec<String> {
    items.iter().map(|s| s.to_string()).collect()
}

#[test]
fn segments_vectors_and_identifiers_are_paired_by_position() {
    let segments = strings(&["a", "b", "c"]);
    let v1: Vec<f32> = vec![0.1, 0.2];
    let v2: Vec<f32> = vec![0.3, 0.4];
    let v3: Vec<f32> = vec![0.5, 0.6];
    let mut pool = IdPool::from_ids(vec![102, 101, 100]).unwrap();
    let points =
        assemble_points(&segments, vec![v1.clone(), v2.clone(), v3.clone()], &mut pool).unwrap();
    assert_eq!(points.len(), 3);
    assert_eq!((points[0].id, &points[0].vector, points[0].text.as_str()), (100, &v1, "a"));
    assert_eq!((points[1].id, &points[1].vector, points[1].text.as_str()), (101, &v2, "b"));
    assert_eq!((points[2].id, &points[2].vector, points[2].text.as_str()), (102, &v3, "c"));
    assert_eq!(pool.len(), 0);
}

#[test]
fn identifiers_that_are_not_needed_stay_in_the_pool() {
    let segments = strings(&["x"]);
    let mut pool = IdPool::from_ids(vec![1, 2, 3]).unwrap();
    let points = assemble_points(&segments, vec![9u8], &mut pool).unwrap();
    assert_eq!(points[0].id, 3);
    assert_eq!(pool.into_ids(), vec![1, 2]);
}

#[test]
fn payload_text_is_the_segment_as_it_came() {
    let segments = strings(&["  padded \n", "\tinner  space\u{a0}", " a ", ""]);
    let mut pool = IdPool::from_ids(vec![4, 3, 2, 1]).unwrap();
    let points = assemble_points(&segments, vec![(), (), (), ()], &mut pool).unwrap();
    assert_eq!(points[0].text, "  padded \n");
    assert_eq!(points[1].text, "\tinner  space\u{a0}");
    assert_eq!(points[2].text, " a ");
    assert_eq!(points[3].text, "");
}

#[test]
fn fewer_or_more_vectors_than_segments_are_refused() {
    let segments = strings(&["a", "b"]);
    let mut pool = IdPool::from_ids(vec![1, 2, 3]).unwrap();
    assert!(matches!(
        assemble_points(&segments, vec![1u8], &mut pool),
        Err(IngestError::InvalidArgument)
    ));
    assert!(matches!(
        assemble_points(&segments, vec![1u8, 2, 3], &mut pool),
        Err(IngestError::InvalidArgument)
    ));
    assert_eq!(pool.len(), 3);
}

#[test]
fn a_pool_that_is_too_small_is_refused_and_left_alone() {
    let segments = strings(&["a", "b"]);
    let mut pool = IdPool::from_ids(vec![1]).unwrap();
    assert!(matches!(
        assemble_points(&segments, vec![1u8, 2], &mut pool),
        Err(IngestError::InvalidArgument)
    ));
    assert_eq!(pool.into_ids(), vec![1]);
}

#[test]
fn no_segments_give_no_points() {
    let mut pool = IdPool::from_ids(vec![1]).unwrap();
    let points = assemble_points(&Vec::new(), Vec::<u8>::new(), &mut pool).unwrap();
    assert!(points.is_empty());
    assert_eq!(pool.len(), 1);
}
