//! The conversation store: durable keyed persistence of encoded conversation
//! records, modelled as a map from identifier to record. Writes append to a
//! log and the latest record for a key wins, so a save overwrites any prior
//! value in full.

use vstd::prelude::*;
use vstd::string::*;
use crate::conversation::Conversation;
use crate::conversation::ConversationView;
use crate::codec::enc_conv;
use crate::codec::dec_conv;
use crate::codec::fits;
use crate::codec::encode_conversation;
use crate::codec::decode_conversation;
use crate::codec::lemma_codec_round_trip;

verus! {

/// Why loading a conversation can fail. Absence is never a failure: a missing
/// record yields a fresh conversation instead.
#[derive(Debug)]
pub enum StoreError {
    /// A record is present under the key but is no conversation's encoding.
    MalformedRecord,
}

/// A keyed record store: conversation identifiers to encoded records. The
/// view is the map a reader observes; later writes to a key shadow earlier
/// ones.
pub struct Store {
    entries: Vec<(String, String)>,
}

/// The map that an entry log denotes: later entries win.
pub open spec fn map_of(entries: Seq<(String, String)>) -> Map<Seq<char>, Seq<char>>
    decreases entries.len(),
{
    if entries.len() == 0 {
        Map::<Seq<char>, Seq<char>>::empty()
    } else {
        map_of(entries.drop_last()).insert(entries.last().0@, entries.last().1@)
    }
}

impl View for Store {
    type V = Map<Seq<char>, Seq<char>>;

    closed spec fn view(&self) -> Map<Seq<char>, Seq<char>> {
        map_of(self.entries@)
    }
}

proof fn lemma_map_of_contains(entries: Seq<(String, String)>, k: Seq<char>)
    ensures
        map_of(entries).contains_key(k) <==> exists|i: int|
            0 <= i < entries.len() && (#[trigger] entries[i]).0@ == k,
    decreases entries.len(),
{
    if entries.len() > 0 {
        lemma_map_of_contains(entries.drop_last(), k);
        let last = entries.last();
        if last.0@ == k {
            assert(entries[entries.len() - 1].0@ == k);
        } else {
            let dl = entries.drop_last();
            if map_of(entries).contains_key(k) {
                let i = choose|i: int| 0 <= i < dl.len() && (#[trigger] dl[i]).0@ == k;
                assert(entries[i].0@ == k);
            }
            if exists|i: int| 0 <= i < entries.len() && (#[trigger] entries[i]).0@ == k {
                let i = choose|i: int| 0 <= i < entries.len() && (#[trigger] entries[i]).0@ == k;
                assert(i < entries.len() - 1);
                assert(entries.drop_last()[i].0@ == k);
            }
        }
    }
}

proof fn lemma_map_of_last_match(entries: Seq<(String, String)>, k: Seq<char>, m: int)
    requires
        0 <= m < entries.len(),
        entries[m].0@ == k,
        forall|j: int| m < j < entries.len() ==> (#[trigger] entries[j]).0@ != k,
    ensures
        map_of(entries).contains_key(k),
        map_of(entries)[k] == entries[m].1@,
    decreases entries.len(),
{
    if m == entries.len() - 1 {
        assert(entries.last() == entries[m]);
    } else {
        assert(entries.last().0@ != k);
        assert forall|j: int| m < j < entries.drop_last().len() implies (#[trigger] entries
            .drop_last()[j]).0@ != k by {
            assert(entries.drop_last()[j] == entries[j]);
        }
        assert(entries.drop_last()[m] == entries[m]);
        lemma_map_of_last_match(entries.drop_last(), k, m);
    }
}

/// Character-wise equality of two texts.
fn str_eq(a: &str, b: &str) -> (r: bool)
    ensures
        r == (a@ == b@),
{
    let na = a.unicode_len();
    let nb = b.unicode_len();
    if na != nb {
        return false;
    }
    let mut i: usize = 0;
    while i < na
        invariant
            i <= na,
            na == a@.len(),
            na == b@.len(),
            forall|j: int| 0 <= j < i ==> a@[j] == b@[j],
        decreases na - i,
    {
        let ca = a.get_char(i);
        let cb = b.get_char(i);
        if ca != cb {
            return false;
        }
        i = i + 1;
    }
    proof {
        assert(a@ =~= b@);
    }
    true
}

impl Store {
    /// An empty store: no identifier has a record.
    pub fn new() -> (r: Store)
        ensures
            r@ == Map::<Seq<char>, Seq<char>>::empty(),
    {
        let r = Store { entries: Vec::new() };
        proof {
            assert(r@ =~= Map::<Seq<char>, Seq<char>>::empty());
        }
        r
    }

    /// The current record under `id`, if one was ever saved.
    fn find(&self, id: &str) -> (r: Option<&String>)
        ensures
            match r {
                Some(rec) => self@.contains_key(id@) && self@[id@] == rec@,
                None => !self@.contains_key(id@),
            },
    {
        let n = self.entries.len();
        let mut i: usize = n;
        while i > 0
            invariant
                i <= n,
                n == self.entries@.len(),
                forall|j: int| i <= j < n ==> (#[trigger] self.entries@[j]).0@ != id@,
            decreases i,
        {
            i = i - 1;
            if str_eq(self.entries[i].0.as_str(), id) {
                proof {
                    lemma_map_of_last_match(self.entries@, id@, i as int);
                }
                return Some(&self.entries[i].1);
            }
        }
        proof {
            lemma_map_of_contains(self.entries@, id@);
        }
        None
    }

    /// Whether a record for `id` is present.
    pub fn contains(&self, id: &str) -> (r: bool)
        ensures
            r == self@.contains_key(id@),
    {
        self.find(id).is_some()
    }

    /// The stored conversation for `id` if present and well formed; a fresh
    /// empty conversation if absent; an error only for a malformed record.
    pub fn load(&self, id: &str) -> (r: Result<Conversation, StoreError>)
        ensures
            match r {
                Ok(c) => if self@.contains_key(id@) {
                    dec_conv(self@[id@]) == Some(c@)
                } else {
                    c@.id == id@ && c@.interactions.len() == 0
                },
                Err(e) => self@.contains_key(id@) && dec_conv(self@[id@]) is None,
            },
    {
        match self.find(id) {
            Some(record) => match decode_conversation(record.as_str()) {
                Some(c) => Ok(c),
                None => Err(StoreError::MalformedRecord),
            },
            None => Ok(Conversation::new(id.to_owned())),
        }
    }

    /// The raw record currently stored under `id`, if any — the storage
    /// backend's plain read, with no decoding.
    pub fn get_record(&self, id: &str) -> (r: Option<&String>)
        ensures
            match r {
                Some(rec) => self@.contains_key(id@) && self@[id@] == rec@,
                None => !self@.contains_key(id@),
            },
    {
        self.find(id)
    }

    /// Writes a raw record under a key, overwriting any prior value — the
    /// storage backend's plain write. Any writer can store any text here;
    /// only well-formed records decode back into conversations.
    pub fn put_record(&mut self, id: &str, record: &str)
        ensures
            final(self)@ == old(self)@.insert(id@, record@),
    {
        self.entries.push((id.to_owned(), record.to_owned()));
        proof {
            assert(self.entries@.drop_last() =~= old(self).entries@);
            assert(self@ =~= old(self)@.insert(id@, record@));
        }
    }

    /// Serializes the conversation and writes it under its identifier,
    /// overwriting any prior record in full.
    pub fn save(&mut self, conversation: &Conversation)
        ensures
            final(self)@ == old(self)@.insert(conversation.id@, enc_conv(conversation@)),
            fits(conversation@),
    {
        let record = encode_conversation(conversation);
        let key = conversation.id.clone();
        self.entries.push((key, record));
        proof {
            assert(self.entries@.drop_last() =~= old(self).entries@);
            assert(self@ =~= old(self)@.insert(conversation.id@, enc_conv(conversation@)));
        }
    }
}

/// The save/load round trip at the store's level: after a conversation's
/// record is written under its identifier, that key is present and its record
/// decodes to exactly the conversation that was saved — same identifier, same
/// interactions, element for element and in order.
pub proof fn lemma_store_round_trip(m: Map<Seq<char>, Seq<char>>, cv: ConversationView)
    requires
        fits(cv),
    ensures
        ({
            let m2 = m.insert(cv.id, enc_conv(cv));
            m2.contains_key(cv.id) && dec_conv(m2[cv.id]) == Some(cv)
        }),
{
    lemma_codec_round_trip(cv);
}

} // verus!

