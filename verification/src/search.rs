//! The search for the answers to a phrase: the trigger words are tried in
//! turn, the stored answers of every word found in the phrase are gathered,
//! and one of them is drawn at the end.
//!
//! Reading the answers of a word from the database is left to the caller:
//! the search says which word to read next, and is handed what was read.
use vstd::prelude::*;
use crate::database::{has_word, pick_answer, trigger_matches, trigger_pattern_text};
use crate::pattern::{regex_compile_error, regex_finds};

verus! {

/// The trigger `word` stops the search through `phrase`: its expression does
/// not compile, or it finds the word in the phrase.
pub open spec fn stops_at(phrase: Seq<char>, word: Seq<char>) -> bool {
    regex_compile_error(trigger_pattern_text(word)) is Some || regex_finds(
        trigger_pattern_text(word),
        phrase,
    )
}

/// None of the words from `from` up to `to` (excluded) stops the search.
pub open spec fn passed_over(phrase: Seq<char>, words: Seq<String>, from: int, to: int) -> bool {
    forall|k: int| from <= k < to ==> !stops_at(phrase, (#[trigger] words[k])@)
}

/// What the search asks for next.
pub enum SearchStep {
    /// Read the answers stored for this trigger word, and hand them back.
    Fetch(String),
    /// The search is over, with this answer or error.
    Done(Result<String, String>),
}

/// A search in progress: the phrase, the trigger words, how many of them
/// were tried, and the answers gathered so far.
pub struct AnswerSearch {
    phrase: String,
    words: Vec<String>,
    cursor: usize,
    answers: Vec<String>,
}

impl AnswerSearch {
    /// No more words are tried than there are.
    #[verifier::type_invariant]
    closed spec fn wf(self) -> bool {
        self.cursor <= self.words@.len()
    }

    pub closed spec fn phrase(self) -> Seq<char> {
        self.phrase@
    }

    pub closed spec fn words(self) -> Seq<String> {
        self.words@
    }

    /// How many of the words were tried.
    pub closed spec fn cursor(self) -> int {
        self.cursor as int
    }

    pub closed spec fn answers(self) -> Seq<String> {
        self.answers@
    }

    /// A search for the answers to `botbot_phrase` among the triggers
    /// `trigger_word_list`; no word tried, no answer gathered.
    pub fn new(botbot_phrase: String, trigger_word_list: Vec<String>) -> (r: AnswerSearch)
        ensures
            r.phrase() == botbot_phrase@,
            r.words() == trigger_word_list@,
            r.cursor() == 0,
            r.answers() == Seq::<String>::empty(),
    {
        AnswerSearch { phrase: botbot_phrase, words: trigger_word_list, cursor: 0, answers: Vec::new() }
    }

    /// Tries the next words: stops at the first one found in the phrase and
    /// asks for its answers; ends with an error at the first one whose
    /// expression does not compile; when every word was tried, ends with
    /// one of the gathered answers drawn at random, or an error when there
    /// is none.
    pub fn advance(&mut self) -> (r: SearchStep)
        ensures
            final(self).phrase() == old(self).phrase(),
            final(self).words() == old(self).words(),
            final(self).answers() == old(self).answers(),
            old(self).cursor() <= final(self).cursor() <= old(self).words().len(),
            r matches SearchStep::Fetch(w) ==> {
                &&& old(self).cursor() < final(self).cursor()
                &&& w@ == old(self).words()[final(self).cursor() - 1]@
                &&& passed_over(
                    old(self).phrase(),
                    old(self).words(),
                    old(self).cursor(),
                    final(self).cursor() - 1,
                )
                &&& regex_compile_error(trigger_pattern_text(w@)) is None
                &&& regex_finds(trigger_pattern_text(w@), old(self).phrase())
            },
            r matches SearchStep::Done(res) ==> ({
                ||| {
                    &&& final(self).cursor() == old(self).words().len()
                    &&& passed_over(
                        old(self).phrase(),
                        old(self).words(),
                        old(self).cursor(),
                        old(self).words().len() as int,
                    )
                    &&& old(self).answers().len() == 0 ==> (res matches Err(m) && m@
                        == "ERROR: no word found for: "@ + old(self).phrase())
                    &&& old(self).answers().len() != 0 ==> (res matches Ok(a) && has_word(
                        old(self).answers(),
                        a@,
                    ))
                }
                ||| {
                    &&& old(self).cursor() < final(self).cursor()
                    &&& passed_over(
                        old(self).phrase(),
                        old(self).words(),
                        old(self).cursor(),
                        final(self).cursor() - 1,
                    )
                    &&& regex_compile_error(
                        trigger_pattern_text(old(self).words()[final(self).cursor() - 1]@),
                    ) matches Some(e) && res matches Err(m) && m@ == "ERROR: setup regex "@ + e
                }
            }),
    {
        proof {
            use_type_invariant(&*self);
        }
        loop
            invariant
                self.phrase@ == old(self).phrase@,
                self.words@ == old(self).words@,
                self.answers@ == old(self).answers@,
                old(self).cursor <= self.cursor <= self.words@.len(),
                passed_over(self.phrase@, self.words@, old(self).cursor as int, self.cursor as int),
            decreases self.words@.len() - self.cursor,
        {
            if self.cursor >= self.words.len() {
                return SearchStep::Done(pick_answer(&self.answers, &self.phrase));
            }
            let i = self.cursor;
            let found = trigger_matches(&self.phrase, &self.words[i]);
            self.cursor = i + 1;
            match found {
                Ok(true) => {
                    return SearchStep::Fetch(self.words[i].clone());
                },
                Ok(false) => {},
                Err(m) => {
                    return SearchStep::Done(Err(m));
                },
            }
        }
    }

    /// Adds the answers read for the word last fetched.
    pub fn add_answers(&mut self, rows: Vec<String>)
        ensures
            final(self).phrase() == old(self).phrase(),
            final(self).words() == old(self).words(),
            final(self).cursor() == old(self).cursor(),
            final(self).answers() == old(self).answers() + rows@,
    {
        proof {
            use_type_invariant(&*self);
        }
        let mut rows = rows;
        let mut all = self.answers.clone();
        proof {
            assert forall|k: int| 0 <= k < all@.len() implies all@[k] == self.answers@[k] by {
                assert(cloned::<String>(self.answers[k], all[k]));
            }
            assert(all@ =~= self.answers@);
        }
        all.append(&mut rows);
        self.answers = all;
    }
}

} // verus!
