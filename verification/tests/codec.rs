use ai_live::codec::decode_conversation;
use ai_live::codec::encode_conversation;
use ai_live::conversation::Conversation;

fn sample(id: &str, pairs: &[(&str, &str)]) -> Conversation {
    let mut c = Conversation::new(String::from(id));
    for (q, a) in pairs {
        c.add_interaction(q, a);
    }
    c
}

fn assert_same(a: &Conversation, b: &Conversation) {
    assert_eq!(a.id, b.id);
    assert_eq!(a.interactions.len(), b.interactions.len());
    for (x, y) in a.interactions.iter().zip(b.interactions.iter()) {
        assert_eq!(x.question, y.question);
        assert_eq!(x.answer, y.answer);
    }
}

#[test]
fn encode_exact_record_for_empty_conversation() {
    let c = sample("ab", &[]);
    assert_eq!(encode_conversation(&c), "I0000000000000002abN0000000000000000");
}

#[test]
fn encode_exact_record_with_one_interaction() {
    let c = sample("x", &[("hi", "yo!")]);
    assert_eq!(
        encode_conversation(&c),
        "I0000000000000001xN0000000000000001Q0000000000000002hiA0000000000000003yo!"
    );
}

#[test]
fn round_trip_empty_conversation() {
    let c = sample("conversation-7", &[]);
    let d = decode_conversation(&encode_conversation(&c)).unwrap();
    assert_same(&c, &d);
}

#[test]
fn round_trip_two_interactions_in_order() {
    let c = sample("id-9", &[("q1", "a1"), ("q2", "a2")]);
    let d = decode_conversation(&encode_conversation(&c)).unwrap();
    assert_same(&c, &d);
}

#[test]
fn round_trip_empty_and_unusual_texts() {
    let c = sample(
        "",
        &[
            ("", ""),
            ("text with \"quotes\" and \\backslashes\\", "line\nbreaks\tand tabs"),
            ("Åland — où est-ce ? 日本語", "naïve café ümlauts"),
            ("IN0000000000000001Q", "A0000000000000000"),
        ],
    );
    let d = decode_conversation(&encode_conversation(&c)).unwrap();
    assert_same(&c, &d);
}

#[test]
fn decode_rejects_malformed_records() {
    assert!(decode_conversation("").is_none());
    assert!(decode_conversation("not a record").is_none());
    assert!(decode_conversation("I0000000000000002ab").is_none());
    assert!(decode_conversation("I0000000000000002abN0000000000000001").is_none());
    assert!(decode_conversation("IZZZZZZZZZZZZZZZZabN0000000000000000").is_none());
    // Trailing garbage after a well-formed record.
    assert!(decode_conversation("I0000000000000002abN0000000000000000x").is_none());
    // Length field claims more identifier characters than exist.
    assert!(decode_conversation("I00000000000000ffabN0000000000000000").is_none());
}
