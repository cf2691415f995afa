use std::collections::HashSet;
use text_ingest::chunk::TextChunk;
use text_ingest::error::{IngestError, Stage};
use text_ingest::pipeline::{Action, Event, Ingestion, Mode, Phase};

fn chunks(texts: &[&str]) -> Vec<TextChunk> {
    texts
        .iter()
        .enumerate()
        .map(|(index, text)| TextChunk { text: text.to_string(), token_len: 1, index })
        .collect()
}

fn expect_segment(action: Action<Vec<f32>>, chunk: usize, text: &str) {
    match action {
        Action::Segment { chunk: c, text: t } => assert_eq!((c, t.as_str()), (chunk, text)),
        other => panic!("expected a request to the segmenter, got {:?}", other),
    }
}

fn expect_abort(action: Action<Vec<f32>>, error: IngestError) {
    match action {
        Action::Abort { error: e } => assert_eq!(e, error),
        other => panic!("expected the run to end with an error, got {:?}", other),
    }
}

fn upload_chunk(run: &mut Ingestion, chunk: usize, reply: &str, ids: &mut Vec<u64>) -> Action<Vec<f32>> {
    let texts: Vec<String> = match run.step::<Vec<f32>>(Event::Segmented(reply.to_string())) {
        Action::Embed { chunk: c, segments } => {
            assert_eq!(c, chunk);
            assert!(segments.iter().all(|s| s.chunk == chunk));
            segments.into_iter().map(|s| s.text).collect()
        }
        other => panic!("expected a request to the embedding client, got {:?}", other),
    };
    let vectors: Vec<Vec<f32>> = texts.iter().map(|t| vec![t.len() as f32]).collect();
    match run.step(Event::Embedded(vectors.clone())) {
        Action::Upsert { chunk: c, points } => {
            assert_eq!(c, chunk);
            assert_eq!(points.len(), texts.len());
            for (i, point) in points.iter().enumerate() {
                assert_eq!(point.vector, vectors[i]);
                assert_eq!(point.text, texts[i]);
                ids.push(point.id);
            }
        }
        other => panic!("expected a request to the store, got {:?}", other),
    }
    run.step(Event::Stored)
}

#[test]
fn a_run_without_chunks_finishes_at_once() {
    let mut run = Ingestion::new(Vec::new(), Mode::Strict);
    match run.step::<Vec<f32>>(Event::Begin) {
        Action::Finish { uploaded, skipped } => {
            assert_eq!(uploaded, 0);
            assert!(skipped.is_empty());
        }
        other => panic!("expected the run to finish, got {:?}", other),
    }
}

#[test]
fn a_run_uploads_every_chunk_in_order() {
    let mut run = Ingestion::new(chunks(&["one", "two"]), Mode::Strict);
    let mut ids = Vec::new();
    expect_segment(run.step(Event::Begin), 0, "one");
    expect_segment(upload_chunk(&mut run, 0, "a~>_^~ b ~>_^~c", &mut ids), 1, "two");
    match upload_chunk(&mut run, 1, "d", &mut ids) {
        Action::Finish { uploaded, skipped } => {
            assert_eq!(uploaded, 4);
            assert!(skipped.is_empty());
        }
        other => panic!("expected the run to finish, got {:?}", other),
    }
    assert_eq!(ids.iter().collect::<HashSet<_>>().len(), 4);
}

#[test]
fn a_lenient_run_leaves_out_the_chunk_that_the_segmenter_failed_on() {
    let mut run = Ingestion::new(chunks(&["c1", "c2", "c3", "c4", "c5"]), Mode::Lenient);
    let mut ids = Vec::new();
    expect_segment(run.step(Event::Begin), 0, "c1");
    expect_segment(upload_chunk(&mut run, 0, "s1~>_^~s2", &mut ids), 1, "c2");
    expect_segment(run.step(Event::SegmenterFailed), 2, "c3");
    expect_segment(upload_chunk(&mut run, 2, "s3", &mut ids), 3, "c4");
    expect_segment(upload_chunk(&mut run, 3, "s4~>_^~s5~>_^~s6", &mut ids), 4, "c5");
    match upload_chunk(&mut run, 4, "s7", &mut ids) {
        Action::Finish { uploaded, skipped } => {
            assert_eq!(uploaded, 7);
            assert_eq!(skipped, vec![1]);
        }
        other => panic!("expected the run to finish, got {:?}", other),
    }
    assert_eq!(ids.iter().collect::<HashSet<_>>().len(), 7);
}

#[test]
fn a_lenient_run_may_leave_out_every_chunk() {
    let mut run = Ingestion::new(chunks(&["c1", "c2"]), Mode::Lenient);
    expect_segment(run.step(Event::Begin), 0, "c1");
    expect_segment(run.step(Event::SegmenterFailed), 1, "c2");
    match run.step::<Vec<f32>>(Event::SegmenterFailed) {
        Action::Finish { uploaded, skipped } => {
            assert_eq!(uploaded, 0);
            assert_eq!(skipped, vec![0, 1]);
        }
        other => panic!("expected the run to finish, got {:?}", other),
    }
}

#[test]
fn a_strict_run_ends_where_the_segmenter_fails() {
    let mut run = Ingestion::new(chunks(&["c1", "c2", "c3"]), Mode::Strict);
    let mut ids = Vec::new();
    expect_segment(run.step(Event::Begin), 0, "c1");
    expect_segment(upload_chunk(&mut run, 0, "s1", &mut ids), 1, "c2");
    expect_abort(
        run.step(Event::SegmenterFailed),
        IngestError::RemoteCall { stage: Stage::Segmenter, chunk: 1 },
    );
    expect_abort(
        run.step(Event::Begin),
        IngestError::Unexpected { phase: Phase::Failed, chunk: 1 },
    );
}

#[test]
fn a_failure_of_the_embedding_client_ends_every_run() {
    for mode in [Mode::Strict, Mode::Lenient] {
        let mut run = Ingestion::new(chunks(&["c1"]), mode);
        expect_segment(run.step(Event::Begin), 0, "c1");
        assert!(matches!(
            run.step::<Vec<f32>>(Event::Segmented("s".to_string())),
            Action::Embed { chunk: 0, .. }
        ));
        expect_abort(
            run.step(Event::EmbeddingFailed),
            IngestError::RemoteCall { stage: Stage::Embedding, chunk: 0 },
        );
    }
}

#[test]
fn vectors_that_are_not_as_many_as_the_segments_end_the_run() {
    let mut run = Ingestion::new(chunks(&["c1"]), Mode::Lenient);
    expect_segment(run.step(Event::Begin), 0, "c1");
    assert!(matches!(
        run.step::<Vec<f32>>(Event::Segmented("a~>_^~b".to_string())),
        Action::Embed { chunk: 0, .. }
    ));
    expect_abort(
        run.step(Event::Embedded(vec![vec![1.0]])),
        IngestError::RemoteCall { stage: Stage::Embedding, chunk: 0 },
    );
}

#[test]
fn a_failure_of_the_store_ends_every_run() {
    for mode in [Mode::Strict, Mode::Lenient] {
        let mut run = Ingestion::new(chunks(&["c1", "c2"]), mode);
        let mut ids = Vec::new();
        expect_segment(run.step(Event::Begin), 0, "c1");
        expect_segment(upload_chunk(&mut run, 0, "s1", &mut ids), 1, "c2");
        assert!(matches!(
            run.step::<Vec<f32>>(Event::Segmented("s".to_string())),
            Action::Embed { chunk: 1, .. }
        ));
        assert!(matches!(run.step(Event::Embedded(vec![vec![1.0f32]])), Action::Upsert { chunk: 1, .. }));
        expect_abort(
            run.step(Event::StoreFailed),
            IngestError::RemoteCall { stage: Stage::Store, chunk: 1 },
        );
    }
}

#[test]
fn an_event_that_the_run_does_not_wait_for_ends_it() {
    let mut run = Ingestion::new(chunks(&["c1"]), Mode::Lenient);
    expect_abort(
        run.step(Event::Stored),
        IngestError::Unexpected { phase: Phase::Ready, chunk: 0 },
    );
    let mut run = Ingestion::new(chunks(&["c1"]), Mode::Lenient);
    expect_segment(run.step(Event::Begin), 0, "c1");
    expect_abort(
        run.step(Event::Embedded(vec![vec![1.0]])),
        IngestError::Unexpected { phase: Phase::Segmenting, chunk: 0 },
    );
    let mut run = Ingestion::new(Vec::new(), Mode::Strict);
    assert!(matches!(run.step::<Vec<f32>>(Event::Begin), Action::Finish { .. }));
    expect_abort(
        run.step(Event::Begin),
        IngestError::Unexpected { phase: Phase::Finished, chunk: 0 },
    );
}

#[test]
fn the_texts_to_embed_are_the_segments_as_the_reply_holds_them() {
    let mut run = Ingestion::new(chunks(&["c1"]), Mode::Strict);
    expect_segment(run.step(Event::Begin), 0, "c1");
    match run.step::<Vec<f32>>(Event::Segmented(" a ~>_^~b\n".to_string())) {
        Action::Embed { chunk, segments } => {
            assert_eq!(chunk, 0);
            let found: Vec<(&str, usize)> =
                segments.iter().map(|s| (s.text.as_str(), s.chunk)).collect();
            assert_eq!(found, vec![(" a ", 0), ("b\n", 0)]);
        }
        other => panic!("expected a request to the embedding client, got {:?}", other),
    }
}

#[test]
fn a_run_starts_from_the_chunks_of_its_text() {
    let mut run = match Ingestion::start("hello world", 1, Mode::Lenient) {
        Ok(run) => run,
        Err(e) => panic!("expected a run, got {:?}", e),
    };
    expect_segment(run.step(Event::Begin), 0, "hello");
    expect_segment(run.step(Event::SegmenterFailed), 1, " world");
    match run.step::<Vec<f32>>(Event::SegmenterFailed) {
        Action::Finish { uploaded, skipped } => {
            assert_eq!(uploaded, 0);
            assert_eq!(skipped, vec![0, 1]);
        }
        other => panic!("expected the run to finish, got {:?}", other),
    }
}

#[test]
fn a_run_does_not_start_on_a_budget_of_zero() {
    assert!(matches!(
        Ingestion::start("hello world", 0, Mode::Strict),
        Err(IngestError::InvalidArgument)
    ));
}

#[test]
fn a_run_does_not_start_where_a_chunk_spells_no_text() {
    assert!(matches!(
        Ingestion::start("𓀀", 1, Mode::Lenient),
        Err(IngestError::Encoding { chunk: 0 })
    ));
}

#[test]
fn identifiers_differ_across_the_chunks_of_a_run() {
    let texts: Vec<String> = (0..40).map(|i| format!("chunk {}", i)).collect();
    let refs: Vec<&str> = texts.iter().map(|s| s.as_str()).collect();
    let mut run = Ingestion::new(chunks(&refs), Mode::Strict);
    let mut ids = Vec::new();
    let mut action = run.step::<Vec<f32>>(Event::Begin);
    let mut chunk = 0;
    while let Action::Segment { chunk: c, .. } = action {
        assert_eq!(c, chunk);
        action = upload_chunk(&mut run, chunk, &"s~>_^~".repeat(25), &mut ids);
        chunk += 1;
    }
    match action {
        Action::Finish { uploaded, skipped } => {
            assert_eq!(uploaded, 40 * 26);
            assert!(skipped.is_empty());
        }
        other => panic!("expected the run to finish, got {:?}", other),
    }
    assert_eq!(ids.iter().collect::<HashSet<_>>().len(), 40 * 26);
}

#[test]
fn a_run_does_not_start_where_the_tokenizer_gives_up() {
    assert!(matches!(
        Ingestion::start(&(" ".repeat(2_500_000) + "a"), 4500, Mode::Lenient),
        Err(IngestError::Tokenizing)
    ));
}
