use md_reader::tts::{
    default_model_paths, markdown_to_speech_text, speak_markdown, speech_chunks, SpeechAction,
    SpeechOutcome, SpeechPhase, DEFAULT_CONFIG_PATH, DEFAULT_MODEL_PATH, NO_READABLE_TEXT,
};

#[test]
fn speech_text_strips_markers_and_markup() {
    let md = "1. first *item*\n23.second\n* star\n+ plus\n>> quote <b>\n### `code` ~~x~~\n[a](u) and [b] (c) ![i](j)";
    assert_eq!(
        markdown_to_speech_text(md),
        "first item second star plus quote b code x a and [b] (c)"
    );
}

#[test]
fn speech_text_only_skips_front_matter_at_the_top() {
    assert_eq!(markdown_to_speech_text("text\n---\nmore\n---\n"), "text --- more ---");
    assert_eq!(markdown_to_speech_text("---\nhidden\n...\nshown"), "shown");
    assert_eq!(markdown_to_speech_text("  \n\t\n"), "");
}

#[test]
fn speech_text_has_single_spaces() {
    let t = markdown_to_speech_text("  a   b\u{a0}\u{a0}c  \n\n   d  ");
    assert_eq!(t, "a b c d");
    assert_eq!(t.split_whitespace().collect::<Vec<_>>().join(" "), t);
}

#[test]
fn chunks_keep_long_words_whole() {
    let chunks = speech_chunks("aaaaaaaaaa bb c", 5);
    assert_eq!(chunks, vec!["aaaaaaaaaa", "bb c"]);
    assert!(speech_chunks("  ", 5).is_empty());
    assert_eq!(speech_chunks("é é", 5), vec!["é é"]);
    assert_eq!(speech_chunks("éé é", 5), vec!["éé", "é"]);
}

#[test]
fn speak_markdown_refuses_empty_text() {
    match speak_markdown("```\ncode only\n```\n") {
        Err(e) => assert_eq!(e, NO_READABLE_TEXT),
        Ok(_) => panic!("expected an error"),
    }
}

#[test]
fn speech_plan_runs_through_chunks() {
    let mut plan = speak_markdown("# Hi\nthere").ok().unwrap();
    assert_eq!(plan.chunks, vec!["Hi there".to_string()]);
    assert!(matches!(plan.step(false, true), SpeechAction::Synthesize(ref t) if t == "Hi there"));
    assert!(matches!(plan.step(false, true), SpeechAction::Play));
    assert!(matches!(plan.step(false, false), SpeechAction::Wait));
    assert!(matches!(plan.step(false, true), SpeechAction::Finish(SpeechOutcome::Finished)));
    assert_eq!(plan.phase, SpeechPhase::Done(SpeechOutcome::Finished));
}

#[test]
fn speech_plan_stops_when_asked() {
    let mut plan = speak_markdown("words").ok().unwrap();
    assert!(matches!(plan.step(true, true), SpeechAction::Finish(SpeechOutcome::Stopped)));
    let mut plan = speak_markdown("words").ok().unwrap();
    plan.step(false, true);
    assert!(matches!(plan.step(true, true), SpeechAction::Finish(SpeechOutcome::Stopped)));
    let mut plan = speak_markdown("words").ok().unwrap();
    plan.step(false, true);
    plan.step(false, true);
    assert!(matches!(plan.step(true, false), SpeechAction::StopPlayback));
}

#[test]
fn model_paths_are_the_defaults() {
    let (m, c) = default_model_paths();
    assert_eq!(m, DEFAULT_MODEL_PATH);
    assert_eq!(c, DEFAULT_CONFIG_PATH);
    assert_eq!(m, "models/en_US-libritts_r-medium.onnx");
}

#[test]
fn reading_synthesizes_and_plays_every_chunk_in_order() {
    let words: Vec<String> = (0..400).map(|i| format!("w{i}")).collect();
    let markdown = words.join(" ");
    let mut plan = speak_markdown(&markdown).ok().unwrap();
    let n = plan.chunks.len();
    assert!(n > 1);
    let mut read: Vec<String> = Vec::new();
    for step in 0..(2 * n + 1) {
        match plan.step(false, true) {
            SpeechAction::Synthesize(t) => {
                assert_eq!(step % 2, 0);
                read.push(t);
            }
            SpeechAction::Play => assert_eq!(step % 2, 1),
            SpeechAction::Finish(SpeechOutcome::Finished) => assert_eq!(step, 2 * n),
            other => panic!("unexpected {other:?}"),
        }
    }
    assert_eq!(read, plan.chunks);
    assert_eq!(read.join(" "), markdown);
    assert!(matches!(plan.step(false, true), SpeechAction::Finish(SpeechOutcome::Finished)));
}

#[test]
fn an_appended_code_block_is_not_read() {
    for md in ["# Title\nSome *text*.", "", "para\n", "---\nt: x\n---\nbody\r\n"] {
        let code = "let x = 1;\n# not a heading\n";
        let longer = format!("{md}\n```\n{code}\n```\n");
        assert_eq!(markdown_to_speech_text(&longer), markdown_to_speech_text(md));
    }
}

#[test]
fn a_stop_after_the_last_clip_still_finishes() {
    let mut plan = speak_markdown("words").ok().unwrap();
    assert!(matches!(plan.step(false, true), SpeechAction::Synthesize(_)));
    assert!(matches!(plan.step(false, true), SpeechAction::Play));
    assert!(matches!(plan.step(true, true), SpeechAction::Finish(SpeechOutcome::Finished)));
    assert_eq!(plan.phase, SpeechPhase::Done(SpeechOutcome::Finished));
}
