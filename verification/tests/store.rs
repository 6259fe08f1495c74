use ai_live::conversation::Conversation;
use ai_live::store::Store;
use ai_live::store::StoreError;

#[test]
fn load_of_absent_id_yields_fresh_empty_conversation() {
    let store = Store::new();
    let c = store.load("never-written").unwrap();
    assert_eq!(c.id, "never-written");
    assert_eq!(c.interactions.len(), 0);
}

#[test]
fn contains_reflects_saves() {
    let mut store = Store::new();
    assert!(!store.contains("c-1"));
    let c = Conversation::new(String::from("c-1"));
    store.save(&c);
    assert!(store.contains("c-1"));
    assert!(!store.contains("c-2"));
}

#[test]
fn save_then_load_round_trips_id_and_ordered_interactions() {
    let mut store = Store::new();
    let mut c = Conversation::new(String::from("c-rt"));
    c.add_interaction("Where is Paris?", "In France.");
    c.add_interaction("And Rome?", "In Italy.");
    c.add_interaction("Berlin?", "In Germany.");
    store.save(&c);
    let d = store.load("c-rt").unwrap();
    assert_eq!(d.id, "c-rt");
    assert_eq!(d.interactions.len(), 3);
    for (x, y) in c.interactions.iter().zip(d.interactions.iter()) {
        assert_eq!(x.question, y.question);
        assert_eq!(x.answer, y.answer);
    }
}

#[test]
fn save_overwrites_prior_record_in_full() {
    let mut store = Store::new();
    let mut first = Conversation::new(String::from("c-ow"));
    first.add_interaction("q1", "a1");
    store.save(&first);
    let second = Conversation::new(String::from("c-ow"));
    store.save(&second);
    let d = store.load("c-ow").unwrap();
    assert_eq!(d.interactions.len(), 0);
}

#[test]
fn malformed_record_is_a_load_error_not_a_conversation() {
    let mut store = Store::new();
    store.put_record("c-bad", "this is no record");
    let r = store.load("c-bad");
    assert!(matches!(r, Err(StoreError::MalformedRecord)));
}

#[test]
fn raw_records_are_what_save_wrote() {
    let mut store = Store::new();
    assert!(store.get_record("c-raw").is_none());
    let c = Conversation::new(String::from("c-raw"));
    store.save(&c);
    assert_eq!(
        store.get_record("c-raw").unwrap(),
        "I0000000000000005c-rawN0000000000000000"
    );
}
