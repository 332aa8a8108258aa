//! The logical phrase value: text, usage frequency, optional last-used time.

use vstd::prelude::*;

verus! {

/// Mathematical view of a phrase: its text, frequency and last-used time.
#[verifier::ext_equal]
pub struct PhraseV {
    pub phrase: Seq<char>,
    pub freq: u32,
    pub last_used: Option<u64>,
}

/// A phrase candidate: output text with an associated usage frequency and,
/// unless freshly constructed, a last-used timestamp.
#[derive(Debug, Clone, PartialEq, Eq)]
pub struct Phrase {
    pub phrase: String,
    pub freq: u32,
    pub last_used: Option<u64>,
}

impl View for Phrase {
    type V = PhraseV;

    open spec fn view(&self) -> PhraseV {
        PhraseV { phrase: self.phrase@, freq: self.freq, last_used: self.last_used }
    }
}

impl Phrase {
    /// Builds a phrase from its parts.
    pub fn new(phrase: String, freq: u32, last_used: Option<u64>) -> (r: Phrase)
        ensures
            r@ == (PhraseV { phrase: phrase@, freq, last_used }),
    {
        Phrase { phrase, freq, last_used }
    }

    /// The phrase text.
    pub fn as_str(&self) -> (r: &str)
        ensures
            r@ == self@.phrase,
    {
        self.phrase.as_str()
    }
}

/// Views of a sequence of phrases.
pub open spec fn phrases_view(s: Seq<Phrase>) -> Seq<PhraseV> {
    s.map_values(|p: Phrase| p@)
}

/// Whether `new` displaces `cur` among duplicates of one text: larger
/// frequency wins, a frequency tie is broken by the later last-used time.
pub open spec fn phrase_better(new: PhraseV, cur: PhraseV) -> bool {
    new.freq > cur.freq || (new.freq == cur.freq && opt_lt(cur.last_used, new.last_used))
}

/// Order on optional timestamps: absent sorts below present.
pub open spec fn opt_lt(a: Option<u64>, b: Option<u64>) -> bool {
    match (a, b) {
        (Option::None, Option::Some(_)) => true,
        (Option::Some(x), Option::Some(y)) => x < y,
        _ => false,
    }
}

/// Decides whether `new` displaces `cur`, as `phrase_better` states.
pub fn phrase_better_exec(new: &Phrase, cur: &Phrase) -> (r: bool)
    ensures
        r == phrase_better(new@, cur@),
{
    if new.freq > cur.freq {
        true
    } else if new.freq == cur.freq {
        match (cur.last_used, new.last_used) {
            (Option::None, Option::Some(_)) => true,
            (Option::Some(x), Option::Some(y)) => x < y,
            _ => false,
        }
    } else {
        false
    }
}

} // verus!
