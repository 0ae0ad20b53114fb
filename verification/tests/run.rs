use language_model_edit_prediction::run::{Action, CompletionRun, Event, Phase};

fn start(attempts: u32, debounce: bool) -> (CompletionRun, Action) {
    CompletionRun::start("let x".to_string(), ";".to_string(), "let x".to_string(), attempts, debounce)
}

fn finished(action: Action) -> Option<String> {
    match action {
        Action::Finish(completion) => completion,
        other => panic!("unexpected {other:?}"),
    }
}

#[test]
fn completion_is_collected_from_pieces_and_cleaned() {
    let (mut run, action) = start(3, false);
    assert!(matches!(action, Action::OpenStream));
    assert!(matches!(run.step(Event::StreamOpened), Action::ReadChunk));
    assert!(matches!(run.step(Event::Chunk("[PREFIX]let".to_string())), Action::ReadChunk));
    assert!(matches!(run.step(Event::Chunk(" x = 1;".to_string())), Action::ReadChunk));
    let completion = finished(run.step(Event::StreamEnded));
    assert_eq!(completion, Some(" = 1;".to_string()));
    assert_eq!(run.phase(), Phase::Done);
}

#[test]
fn debounced_run_waits_first() {
    let (mut run, action) = start(1, true);
    assert!(matches!(action, Action::Wait(150)));
    assert_eq!(run.phase(), Phase::Debouncing);
    assert!(matches!(run.step(Event::Waited), Action::OpenStream));
    assert_eq!(run.phase(), Phase::Opening);
    run.step(Event::StreamOpened);
    run.step(Event::Chunk("let x = 4".to_string()));
    assert_eq!(finished(run.step(Event::StreamEnded)), Some(" = 4".to_string()));
}

#[test]
fn empty_answers_are_asked_for_again_up_to_the_limit() {
    let (mut run, _) = start(2, false);
    run.step(Event::StreamOpened);
    run.step(Event::Chunk("let x \n".to_string()));
    assert!(matches!(run.step(Event::StreamEnded), Action::OpenStream));
    run.step(Event::StreamOpened);
    assert_eq!(finished(run.step(Event::StreamEnded)), None);
    assert_eq!(run.phase(), Phase::Done);
}

#[test]
fn later_attempt_starts_afresh() {
    let (mut run, _) = start(2, false);
    run.step(Event::StreamOpened);
    run.step(Event::Chunk("  ".to_string()));
    run.step(Event::StreamEnded);
    run.step(Event::StreamOpened);
    run.step(Event::Chunk(" = 2".to_string()));
    assert_eq!(finished(run.step(Event::StreamEnded)), Some(" = 2".to_string()));
}

#[test]
fn broken_stream_counts_as_far_as_it_got() {
    let (mut run, _) = start(1, false);
    run.step(Event::StreamOpened);
    run.step(Event::Chunk(" = 3".to_string()));
    assert_eq!(finished(run.step(Event::ChunkFailed)), Some(" = 3".to_string()));
}

#[test]
fn refusal_ends_the_run() {
    let (mut run, _) = start(5, false);
    run.step(Event::StreamOpened);
    assert!(matches!(run.step(Event::StreamEnded), Action::OpenStream));
    assert_eq!(finished(run.step(Event::StreamRefused)), None);
    assert_eq!(run.phase(), Phase::Done);
}

#[test]
fn at_least_one_attempt_is_made() {
    let (mut run, action) = start(0, false);
    assert!(matches!(action, Action::OpenStream));
    run.step(Event::StreamOpened);
    assert_eq!(finished(run.step(Event::StreamEnded)), None);
}
