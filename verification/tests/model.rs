use ai_live::conversation::Conversation;
use ai_live::conversation::Interaction;
use ai_live::conversation::SYSTEM_INSTRUCTION;

#[test]
fn new_conversation_is_empty() {
    let c = Conversation::new(String::from("c-1"));
    assert_eq!(c.id, "c-1");
    assert_eq!(c.interactions.len(), 0);
}

#[test]
fn append_keeps_previous_interactions_unchanged() {
    let mut c = Conversation::new(String::from("c-2"));
    c.add_interaction("q1", "a1");
    c.add_interaction("q2", "a2");
    c.add_interaction("q3", "a3");
    assert_eq!(c.interactions.len(), 3);
    assert_eq!(c.interactions[0].question, "q1");
    assert_eq!(c.interactions[0].answer, "a1");
    assert_eq!(c.interactions[1].question, "q2");
    assert_eq!(c.interactions[1].answer, "a2");
    assert_eq!(c.interactions[2].question, "q3");
    assert_eq!(c.interactions[2].answer, "a3");
}

#[test]
fn interaction_prompt_exact_format() {
    let i = Interaction {
        question: String::from("What is the capital of France?"),
        answer: String::from("Paris."),
    };
    assert_eq!(
        i.get_prompt(),
        "<s>[INST]What is the capital of France?[/INST]Paris.</s>\n"
    );
}

#[test]
fn prompt_on_empty_history_has_system_block_then_question() {
    let c = Conversation::new(String::from("c-3"));
    let expected = format!(
        "<s>[INST]{}[/INST]</s>\n<s>[INST]{}[/INST]</s>\n",
        SYSTEM_INSTRUCTION, "Where is Oslo?"
    );
    assert_eq!(c.get_prompt("Where is Oslo?"), expected);
}

#[test]
fn prompt_ordering_system_then_history_then_question() {
    let mut c = Conversation::new(String::from("c-4"));
    c.add_interaction("q1", "a1");
    c.add_interaction("q2", "a2");
    let expected = format!(
        "<s>[INST]{}[/INST]</s>\n<s>[INST]q1[/INST]a1</s>\n<s>[INST]q2[/INST]a2</s>\n<s>[INST]q3[/INST]</s>\n",
        SYSTEM_INSTRUCTION
    );
    assert_eq!(c.get_prompt("q3"), expected);
}
