//! The in-memory conversation model: an identifier plus an ordered,
//! append-only sequence of question/answer interactions, and the
//! deterministic rendering of a conversation into a prompt string.

use vstd::prelude::*;
use vstd::string::*;

verus! {

/// The fixed behaviour directive that opens every rendered prompt.
pub const SYSTEM_INSTRUCTION: &'static str = "<<SYS>>\nYou are an AI sidekick and you help users deepen their geographic knowledge.\nAnswer the questions as short as possible.\nNever write any kind of introduction, greeting, or sign-off.\n<</SYS>>";

/// One resolved question/answer exchange. Immutable once created.
#[derive(Debug)]
pub struct Interaction {
    pub question: String,
    pub answer: String,
}

/// The mathematical value of an `Interaction`: its two texts.
pub struct InteractionView {
    pub question: Seq<char>,
    pub answer: Seq<char>,
}

impl View for Interaction {
    type V = InteractionView;

    open spec fn view(&self) -> InteractionView {
        InteractionView { question: self.question@, answer: self.answer@ }
    }
}

/// A uniquely identified, ordered sequence of interactions.
#[derive(Debug)]
pub struct Conversation {
    pub id: String,
    pub interactions: Vec<Interaction>,
}

/// The mathematical value of a `Conversation`.
pub struct ConversationView {
    pub id: Seq<char>,
    pub interactions: Seq<InteractionView>,
}

impl View for Conversation {
    type V = ConversationView;

    open spec fn view(&self) -> ConversationView {
        ConversationView {
            id: self.id@,
            interactions: Seq::new(self.interactions@.len(), |i: int| self.interactions@[i]@),
        }
    }
}

/// The prompt block for one past interaction: the question and its answer
/// inside one delimited turn.
pub open spec fn spec_interaction_prompt(iv: InteractionView) -> Seq<char> {
    "<s>[INST]"@ + iv.question + "[/INST]"@ + iv.answer + "</s>\n"@
}

/// The prompt blocks of a history, one per interaction, in order.
pub open spec fn spec_history_prompt(ivs: Seq<InteractionView>) -> Seq<char>
    decreases ivs.len(),
{
    if ivs.len() == 0 {
        Seq::<char>::empty()
    } else {
        spec_history_prompt(ivs.drop_last()) + spec_interaction_prompt(ivs.last())
    }
}

/// The full prompt: the system block first, then every stored interaction in
/// order, then the still-unanswered question as the trailing block.
pub open spec fn spec_prompt(cv: ConversationView, question: Seq<char>) -> Seq<char> {
    "<s>[INST]"@ + SYSTEM_INSTRUCTION@ + "[/INST]</s>\n"@ + spec_history_prompt(cv.interactions)
        + "<s>[INST]"@ + question + "[/INST]</s>\n"@
}

impl Interaction {
    /// Renders this interaction's block of the prompt.
    pub fn get_prompt(&self) -> (r: String)
        ensures
            r@ == spec_interaction_prompt(self@),
    {
        let mut p = String::new();
        p.append("<s>[INST]");
        p.append(self.question.as_str());
        p.append("[/INST]");
        p.append(self.answer.as_str());
        p.append("</s>\n");
        proof {
            assert(p@ =~= spec_interaction_prompt(self@));
        }
        p
    }
}

impl Conversation {
    /// A fresh conversation with the given identifier and no interactions.
    pub fn new(id: String) -> (r: Conversation)
        ensures
            r@.id == id@,
            r@.interactions == Seq::<InteractionView>::empty(),
    {
        let r = Conversation { id, interactions: Vec::new() };
        proof {
            assert(r@.interactions =~= Seq::<InteractionView>::empty());
        }
        r
    }

    /// Appends one completed interaction. The previous interactions are
    /// unchanged and keep their order; the new one is last.
    pub fn add_interaction(&mut self, question: &str, answer: &str)
        ensures
            final(self)@.id == old(self)@.id,
            final(self)@.interactions == old(self)@.interactions.push(
                (InteractionView { question: question@, answer: answer@ }),
            ),
    {
        self.interactions.push(Interaction {
            question: question.to_owned(),
            answer: answer.to_owned(),
        });
        proof {
            assert(self@.interactions =~= old(self)@.interactions.push(
                (InteractionView { question: question@, answer: answer@ }),
            ));
        }
    }

    /// Renders the whole prompt for a new question: system block, each stored
    /// interaction in order, then the new question's block.
    pub fn get_prompt(&self, question: &str) -> (r: String)
        ensures
            r@ == spec_prompt(self@, question@),
    {
        let mut prompt = String::new();
        prompt.append("<s>[INST]");
        prompt.append(SYSTEM_INSTRUCTION);
        prompt.append("[/INST]</s>\n");
        let n = self.interactions.len();
        let mut i: usize = 0;
        while i < n
            invariant
                i <= n,
                n == self.interactions@.len(),
                prompt@ == "<s>[INST]"@ + SYSTEM_INSTRUCTION@ + "[/INST]</s>\n"@
                    + spec_history_prompt(self@.interactions.take(i as int)),
            decreases n - i,
        {
            let piece = self.interactions[i].get_prompt();
            prompt.append(piece.as_str());
            proof {
                let taken = self@.interactions.take(i as int + 1);
                assert(taken.drop_last() =~= self@.interactions.take(i as int));
                assert(taken.last() == self@.interactions[i as int]);
                assert(prompt@ =~= "<s>[INST]"@ + SYSTEM_INSTRUCTION@ + "[/INST]</s>\n"@
                    + spec_history_prompt(taken));
            }
            i = i + 1;
        }
        prompt.append("<s>[INST]");
        prompt.append(question);
        prompt.append("[/INST]</s>\n");
        proof {
            assert(self@.interactions.take(self@.interactions.len() as int)
                =~= self@.interactions);
            assert(prompt@ =~= spec_prompt(self@, question@));
        }
        prompt
    }
}

} // verus!
