use ai_live::conversation::SYSTEM_INSTRUCTION;
use ai_live::store::Store;
use ai_live::turn::apply_inference_outcome;
use ai_live::turn::fetch_conversation;
use ai_live::turn::resolve_conversation;
use ai_live::turn::FetchOutcome;
use ai_live::turn::InferenceOutcome;

#[test]
fn resolving_without_an_id_generates_a_fresh_36_character_identity() {
    let store = Store::new();
    let c = resolve_conversation(&store, None).unwrap();
    assert_eq!(c.id.chars().count(), 36);
    assert_eq!(c.interactions.len(), 0);
    let again = resolve_conversation(&store, None).unwrap();
    assert_ne!(c.id, again.id);
}

#[test]
fn fetch_of_unknown_id_is_a_distinct_not_found() {
    let store = Store::new();
    let r = fetch_conversation(&store, "missing").unwrap();
    assert!(matches!(r, FetchOutcome::NotFound));
}

#[test]
fn fetch_of_known_id_returns_the_stored_body() {
    let mut store = Store::new();
    let mut c = resolve_conversation(&store, Some("known")).unwrap();
    c.add_interaction("q", "a");
    store.save(&c);
    match fetch_conversation(&store, "known").unwrap() {
        FetchOutcome::Found(d) => {
            assert_eq!(d.id, "known");
            assert_eq!(d.interactions.len(), 1);
            assert_eq!(d.interactions[0].question, "q");
            assert_eq!(d.interactions[0].answer, "a");
        }
        FetchOutcome::NotFound => panic!("stored conversation reported as not found"),
    }
}

#[test]
fn end_to_end_two_turns_build_one_ordered_conversation() {
    let mut store = Store::new();

    // First turn: no conversation identity supplied.
    let c1 = resolve_conversation(&store, None).unwrap();
    let prompt1 = c1.get_prompt("What is the capital of France?");
    let expected1 = format!(
        "<s>[INST]{}[/INST]</s>\n<s>[INST]What is the capital of France?[/INST]</s>\n",
        SYSTEM_INSTRUCTION
    );
    assert_eq!(prompt1, expected1);
    let (answer1, id1) = apply_inference_outcome(
        &mut store,
        c1,
        "What is the capital of France?",
        InferenceOutcome::Completed(String::from("Paris.")),
    )
    .unwrap();
    assert_eq!(answer1, "Paris.");
    assert_eq!(id1.chars().count(), 36);

    // Second turn: the caller continues the thread under the returned id.
    let c2 = resolve_conversation(&store, Some(&id1)).unwrap();
    let prompt2 = c2.get_prompt("What is its population?");
    let expected2 = format!(
        "<s>[INST]{}[/INST]</s>\n<s>[INST]What is the capital of France?[/INST]Paris.</s>\n<s>[INST]What is its population?[/INST]</s>\n",
        SYSTEM_INSTRUCTION
    );
    assert_eq!(prompt2, expected2);
    let (answer2, id2) = apply_inference_outcome(
        &mut store,
        c2,
        "What is its population?",
        InferenceOutcome::Completed(String::from("About 2.1 million.")),
    )
    .unwrap();
    assert_eq!(answer2, "About 2.1 million.");
    assert_eq!(id2, id1);

    // The stored conversation has exactly the two interactions, in order.
    let stored = store.load(&id1).unwrap();
    assert_eq!(stored.interactions.len(), 2);
    assert_eq!(stored.interactions[0].question, "What is the capital of France?");
    assert_eq!(stored.interactions[0].answer, "Paris.");
    assert_eq!(stored.interactions[1].question, "What is its population?");
    assert_eq!(stored.interactions[1].answer, "About 2.1 million.");
}

#[test]
fn failed_inference_leaves_storage_untouched() {
    let mut store = Store::new();
    let mut c = resolve_conversation(&store, Some("c-fail")).unwrap();
    c.add_interaction("q1", "a1");
    store.save(&c);
    let record_before = store.get_record("c-fail").unwrap().clone();

    let attempt = resolve_conversation(&store, Some("c-fail")).unwrap();
    let r = apply_inference_outcome(&mut store, attempt, "q2", InferenceOutcome::Failed);
    assert!(r.is_err());

    assert_eq!(store.get_record("c-fail").unwrap(), &record_before);
    let after = store.load("c-fail").unwrap();
    assert_eq!(after.interactions.len(), 1);
    assert_eq!(after.interactions[0].question, "q1");
    assert_eq!(after.interactions[0].answer, "a1");
}
