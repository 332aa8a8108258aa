//! Candidate phrase selection over a composition buffer.
//!
//! The selector walks a composition buffer to pick the boundaries of the
//! phrase range under the cursor, consuming the dictionary's query surface
//! only: it shrinks or wraps the range until the dictionary has at least one
//! candidate for the covered syllables.

use crate::kv::Dictionary;
use crate::phrase::{phrases_view, Phrase};
use vstd::prelude::*;

verus! {

/// One symbol of a composition buffer: a syllable code or a plain character.
#[derive(Debug, Clone, Copy, PartialEq, Eq)]
pub enum Symbol {
    Syllable(u16),
    Char(char),
}

impl Symbol {
    /// Whether the symbol is a syllable.
    pub open spec fn is_syllable_spec(&self) -> bool {
        self is Syllable
    }

    /// Whether the symbol is a syllable.
    pub fn is_syllable(&self) -> (r: bool)
        ensures
            r == self.is_syllable_spec(),
    {
        match self {
            Symbol::Syllable(_) => true,
            Symbol::Char(_) => false,
        }
    }
}

/// The syllable code of a symbol; zero for a non-syllable.
pub open spec fn symbol_code(s: Symbol) -> u16 {
    match s {
        Symbol::Syllable(c) => c,
        Symbol::Char(_) => 0,
    }
}

/// The syllable codes of a run of symbols.
pub open spec fn symbol_codes(s: Seq<Symbol>) -> Seq<u16> {
    s.map_values(|x: Symbol| symbol_code(x))
}

/// A selected interval of the composition buffer carrying a phrase.
#[derive(Debug, Clone, PartialEq, Eq)]
pub struct Interval {
    pub start: usize,
    pub end: usize,
    pub phrase: String,
}

/// A user-inserted break point position.
#[derive(Debug, Clone, Copy, PartialEq, Eq)]
pub struct Break(pub usize);

/// A composition buffer with its selections and break points.
#[derive(Debug)]
pub struct Composition {
    pub buffer: Vec<Symbol>,
    pub selections: Vec<Interval>,
    pub breaks: Vec<Break>,
}



/// Whether a dictionary has a candidate for the syllables of
/// `buffer[from..to]`.
pub open spec fn has_candidates<D: Dictionary>(
    dict: D,
    buffer: Seq<Symbol>,
    from: int,
    to: int,
) -> bool {
    dict.candidates_spec(symbol_codes(buffer.subrange(from, to))).len() > 0
}

/// Whether `c` ends one of the selections or is a user break point.
pub open spec fn break_pos_at(sels: Seq<Interval>, brks: Seq<Break>, c: int) -> bool {
    (exists|i: int| 0 <= i < sels.len() && (#[trigger] sels[i]).end == c) || (exists|i: int|
        0 <= i < brks.len() && (#[trigger] brks[i]).0 == c)
}

/// The walk of `previous_break_point`: down from `c` over syllables until
/// position zero or a break position; a non-syllable also stops the walk.
pub open spec fn prev_bp_from(
    buffer: Seq<Symbol>,
    sels: Seq<Interval>,
    brks: Seq<Break>,
    c: int,
) -> int
    decreases c,
{
    if c <= 0 {
        0
    } else if break_pos_at(sels, brks, c) {
        c
    } else if c < buffer.len() && buffer[c] is Syllable {
        prev_bp_from(buffer, sels, brks, c - 1)
    } else {
        c
    }
}

/// Where `previous_break_point(cursor)` lands: a cursor at the buffer end
/// first steps one position back.
pub open spec fn prev_break_point_spec(
    buffer: Seq<Symbol>,
    sels: Seq<Interval>,
    brks: Seq<Break>,
    cursor: int,
) -> int {
    if cursor <= 0 {
        0
    } else if cursor == buffer.len() {
        prev_bp_from(buffer, sels, brks, cursor - 1)
    } else {
        prev_bp_from(buffer, sels, brks, cursor)
    }
}

/// Walks a composition buffer to select the phrase range under the cursor.
#[derive(Debug)]
pub struct PhraseSelector<D> {
    begin: usize,
    end: usize,
    forward_select: bool,
    buffer: Vec<Symbol>,
    selections: Vec<Interval>,
    breaks: Vec<Break>,
    dict: D,
}

impl<D: Dictionary> PhraseSelector<D> {
    /// The lower bound of the selected range.
    pub closed spec fn spec_begin(&self) -> usize {
        self.begin
    }

    /// The upper bound of the selected range.
    pub closed spec fn spec_end(&self) -> usize {
        self.end
    }

    /// Whether selection moves forward from the cursor.
    pub closed spec fn spec_forward(&self) -> bool {
        self.forward_select
    }

    /// The composition buffer.
    pub closed spec fn spec_buffer(&self) -> Seq<Symbol> {
        self.buffer@
    }

    /// The selection intervals of the composition.
    pub closed spec fn spec_selections(&self) -> Seq<Interval> {
        self.selections@
    }

    /// The break points of the composition.
    pub closed spec fn spec_breaks(&self) -> Seq<Break> {
        self.breaks@
    }

    /// The dictionary consulted for candidates.
    pub closed spec fn spec_dict(&self) -> D {
        self.dict
    }

    /// Whether the dictionary has a candidate for `buffer[from..to]`.
    pub open spec fn range_has_phrase(&self, from: int, to: int) -> bool {
        has_candidates(self.spec_dict(), self.spec_buffer(), from, to)
    }

    /// Whether `c` ends a selection or is a user break point.
    pub open spec fn is_break_pos(&self, c: int) -> bool {
        break_pos_at(self.spec_selections(), self.spec_breaks(), c)
    }

    /// Where `previous_break_point(cursor)` lands: a cursor at the buffer
    /// end first steps one position back.
    pub open spec fn prev_bp(&self, cursor: int) -> int {
        prev_break_point_spec(
            self.spec_buffer(),
            self.spec_selections(),
            self.spec_breaks(),
            cursor,
        )
    }

    /// Builds a selector over a composition, initially spanning the whole
    /// buffer.
    pub fn new(forward_select: bool, com: Composition, dict: D) -> (r: PhraseSelector<D>)
        ensures
            r.spec_begin() == 0,
            r.spec_end() == com.buffer@.len(),
            r.spec_forward() == forward_select,
            r.spec_buffer() == com.buffer@,
            r.spec_selections() == com.selections@,
            r.spec_breaks() == com.breaks@,
            r.spec_dict() == dict,
    {
        let end = com.buffer.len();
        PhraseSelector {
            begin: 0,
            end,
            forward_select,
            buffer: com.buffer,
            selections: com.selections,
            breaks: com.breaks,
            dict,
        }
    }

    /// The syllable codes of `buffer[from..to]`.
    #[verifier::loop_isolation(false)]
    fn extract_codes(&self, from: usize, to: usize) -> (r: Vec<u16>)
        requires
            from <= to <= self.spec_buffer().len(),
        ensures
            r@ == symbol_codes(self.spec_buffer().subrange(from as int, to as int)),
    {
        let ghost target = symbol_codes(self.spec_buffer().subrange(from as int, to as int));
        let mut out: Vec<u16> = Vec::new();
        let mut i: usize = from;
        while i < to
            invariant
                from <= i <= to <= self.buffer@.len(),
                out@.len() == i - from,
                forall|j: int| 0 <= j < i - from ==> out@[j] == symbol_code(self.buffer@[from + j]),
            decreases to - i,
        {
            let c = match self.buffer[i] {
                Symbol::Syllable(c) => c,
                Symbol::Char(_) => 0,
            };
            out.push(c);
            i = i + 1;
        }
        proof {
            assert(out@ =~= target);
        }
        out
    }

    /// Whether the dictionary has a candidate for `buffer[from..to]`.
    fn has_phrase(&self, from: usize, to: usize) -> (r: bool)
        requires
            from <= to <= self.spec_buffer().len(),
        ensures
            r == has_candidates(self.spec_dict(), self.spec_buffer(), from as int, to as int),
    {
        let codes = self.extract_codes(from, to);
        let found = self.dict.lookup_phrase(codes.as_slice());
        proof {
            assert(phrases_view(found@).len() == found@.len());
        }
        !found.is_empty()
    }

    /// The first position at or after `cursor` where the syllable run ends:
    /// with only syllables ahead, the end of the buffer.
    #[verifier::loop_isolation(false)]
    pub fn next_break_point(&self, cursor: usize) -> (r: usize)
        requires
            cursor <= self.spec_buffer().len(),
            forall|i: int|
                cursor <= i < self.spec_buffer().len() ==> (#[trigger] self.spec_buffer()[i])
                    is Syllable,
        ensures
            r == self.spec_buffer().len(),
    {
        let mut c = cursor;
        while c < self.buffer.len()
            invariant
                cursor <= c <= self.buffer@.len(),
            decreases self.buffer@.len() - c,
        {
            if self.buffer[c].is_syllable() {
                c = c + 1;
            } else {
                proof {
                    assert(false);
                }
            }
        }
        c
    }

    /// Whether `c` ends a selection or is a user break point.
    #[verifier::loop_isolation(false)]
    fn at_break_pos(&self, c: usize) -> (r: bool)
        ensures
            r == self.is_break_pos(c as int),
    {
        let mut i: usize = 0;
        while i < self.selections.len()
            invariant
                0 <= i <= self.selections@.len(),
                forall|j: int| 0 <= j < i ==> (#[trigger] self.selections@[j]).end != c,
            decreases self.selections@.len() - i,
        {
            if self.selections[i].end == c {
                proof {
                    assert((self.spec_selections()[i as int]).end == c);
                }
                return true;
            }
            i = i + 1;
        }
        let mut m: usize = 0;
        while m < self.breaks.len()
            invariant
                0 <= m <= self.breaks@.len(),
                forall|j: int| 0 <= j < m ==> (#[trigger] self.breaks@[j]).0 != c,
            decreases self.breaks@.len() - m,
        {
            if self.breaks[m].0 == c {
                proof {
                    assert((self.spec_breaks()[m as int]).0 == c);
                }
                return true;
            }
            m = m + 1;
        }
        false
    }

    /// The nearest break position at or below the cursor: zero, the end of a
    /// selection, or a user break point; a non-syllable also stops the walk.
    #[verifier::loop_isolation(false)]
    pub fn previous_break_point(&self, cursor: usize) -> (r: usize)
        requires
            cursor <= self.spec_buffer().len(),
        ensures
            r == self.prev_bp(cursor as int),
            r <= cursor,
    {
        if cursor == 0 {
            return 0;
        }
        let mut c = if cursor == self.buffer.len() {
            cursor - 1
        } else {
            cursor
        };
        while c != 0
            invariant
                0 <= c <= cursor,
                c < self.buffer@.len() || c == cursor,
                self.prev_bp(cursor as int) == prev_bp_from(
                    self.spec_buffer(),
                    self.spec_selections(),
                    self.spec_breaks(),
                    c as int,
                ),
            decreases c,
        {
            if self.at_break_pos(c) {
                return c;
            }
            if c < self.buffer.len() && self.buffer[c].is_syllable() {
                c = c - 1;
            } else {
                return c;
            }
        }
        0
    }

    /// Pins the selection around the cursor: the range starts (forward) or
    /// ends (backward) at the cursor and shrinks from the other side until
    /// the dictionary has a candidate for the covered syllables.
    #[verifier::loop_isolation(false)]
    pub fn init(&mut self, cursor: usize)
        requires
            cursor <= old(self).spec_buffer().len(),
            old(self).spec_forward() ==> forall|i: int|
                cursor <= i < old(self).spec_buffer().len() ==> (#[trigger] old(self).spec_buffer()[i]) is Syllable,
            old(self).spec_forward() ==> exists|e: int|
                cursor <= e <= old(self).spec_buffer().len() && has_candidates(old(self).spec_dict(), old(self).spec_buffer(), 
                    cursor as int,
                    e,
                ),
            !old(self).spec_forward() ==> exists|b: int|
                old(self).prev_bp(cursor as int) <= b <= vstd::math::min(
                    cursor as int + 1,
                    old(self).spec_buffer().len() as int,
                ) && #[trigger] has_candidates(old(self).spec_dict(), old(self).spec_buffer(), 
                    b,
                    vstd::math::min(cursor as int + 1, old(self).spec_buffer().len() as int),
                ),
        ensures
            final(self).spec_forward() == old(self).spec_forward(),
            final(self).spec_buffer() == old(self).spec_buffer(),
            final(self).spec_selections() == old(self).spec_selections(),
            final(self).spec_breaks() == old(self).spec_breaks(),
            final(self).spec_dict() == old(self).spec_dict(),
            final(self).spec_begin() <= final(self).spec_end() <= final(self).spec_buffer().len(),
            has_candidates(final(self).spec_dict(), final(self).spec_buffer(), 
                final(self).spec_begin() as int,
                final(self).spec_end() as int,
            ),
            old(self).spec_forward() ==> final(self).spec_begin() == cursor && forall|e: int|
                final(self).spec_end() < e <= final(self).spec_buffer().len()
                    ==> !has_candidates(final(self).spec_dict(), final(self).spec_buffer(), cursor as int, e),
            !old(self).spec_forward() ==> final(self).spec_end() == vstd::math::min(
                cursor as int + 1,
                old(self).spec_buffer().len() as int,
            ) && forall|b: int|
                old(self).prev_bp(cursor as int) <= b < final(self).spec_begin() ==> !has_candidates(final(self).spec_dict(), final(self).spec_buffer(), b, final(self).spec_end() as int),
    {
        if self.forward_select {
            self.begin = cursor;
            let mut e = self.next_break_point(cursor);
            proof {
                let w = choose|x: int|
                    cursor <= x <= old(self).spec_buffer().len() && has_candidates(old(self).spec_dict(), old(self).spec_buffer(), 
                        cursor as int,
                        x,
                    );
                assert(has_candidates(self.spec_dict(), self.spec_buffer(), cursor as int, w));
            }
            while !self.has_phrase(cursor, e)
                invariant
                    cursor <= e <= self.buffer@.len(),
                    exists|x: int| cursor <= x <= e && has_candidates(self.spec_dict(), self.spec_buffer(), cursor as int, x),
                    forall|x: int|
                        e < x <= self.buffer@.len() ==> !has_candidates(self.spec_dict(), self.spec_buffer(), cursor as int, x),
                decreases e,
            {
                let ghost w = choose|x: int|
                    cursor <= x <= e && has_candidates(self.spec_dict(), self.spec_buffer(), cursor as int, x);
                proof {
                    assert(w < e);
                }
                e = e - 1;
                proof {
                    assert(cursor <= w <= e && has_candidates(self.spec_dict(), self.spec_buffer(), cursor as int, w));
                    assert(!has_candidates(self.spec_dict(), self.spec_buffer(), cursor as int, e + 1));
                }
            }
            self.end = e;
        } else {
            let lim = if cursor < self.buffer.len() {
                cursor + 1
            } else {
                self.buffer.len()
            };
            self.end = lim;
            let pb = self.previous_break_point(cursor);
            let mut b = pb;
            proof {
                let glim = vstd::math::min(cursor as int + 1, old(self).spec_buffer().len() as int);
                assert(lim as int == glim);
                let w = choose|x: int|
                    old(self).prev_bp(cursor as int) <= x <= glim && #[trigger] has_candidates(
                        old(self).spec_dict(),
                        old(self).spec_buffer(),
                        x,
                        glim,
                    );
                assert(has_candidates(self.spec_dict(), self.spec_buffer(), w, lim as int));
                assert(b as int <= w <= lim as int);
            }
            while !self.has_phrase(b, lim)
                invariant
                    pb <= b <= lim <= self.buffer@.len(),
                    self.end == lim,
                    exists|x: int| b as int <= x <= lim as int && has_candidates(self.spec_dict(), self.spec_buffer(), x, lim as int),
                    forall|x: int| pb <= x < b as int ==> !has_candidates(self.spec_dict(), self.spec_buffer(), x, lim as int),
                decreases lim - b,
            {
                let ghost w = choose|x: int|
                    b as int <= x <= lim as int && has_candidates(self.spec_dict(), self.spec_buffer(), x, lim as int);
                proof {
                    assert(w > b as int);
                }
                b = b + 1;
                proof {
                    assert(b as int <= w <= lim as int && has_candidates(self.spec_dict(), self.spec_buffer(), w, lim as int));
                    assert(!has_candidates(self.spec_dict(), self.spec_buffer(), b as int - 1, lim as int));
                }
            }
            self.begin = b;
        }
    }

    /// Moves to the next candidate range: the free side shrinks by one
    /// position; when the range empties it is re-opened to the nearest break
    /// point, and the walk goes on until the dictionary has a candidate.
    #[verifier::loop_isolation(false)]
    pub fn next(&mut self)
        requires
            old(self).spec_begin() < old(self).spec_end() <= old(self).spec_buffer().len(),
            old(self).spec_forward() ==> forall|i: int|
                old(self).spec_begin() <= i < old(self).spec_buffer().len() ==> (#[trigger] old(self).spec_buffer()[i]) is Syllable,
            old(self).spec_forward() ==> exists|e: int|
                old(self).spec_begin() < e <= old(self).spec_buffer().len() && has_candidates(old(self).spec_dict(), old(self).spec_buffer(), old(self).spec_begin() as int, e),
            !old(self).spec_forward() ==> exists|b: int|
                old(self).prev_bp(old(self).spec_end() as int) <= b < old(self).spec_end()
                    && #[trigger] has_candidates(old(self).spec_dict(), old(self).spec_buffer(), b, old(self).spec_end() as int),
        ensures
            final(self).spec_forward() == old(self).spec_forward(),
            final(self).spec_buffer() == old(self).spec_buffer(),
            final(self).spec_selections() == old(self).spec_selections(),
            final(self).spec_breaks() == old(self).spec_breaks(),
            final(self).spec_dict() == old(self).spec_dict(),
            final(self).spec_begin() < final(self).spec_end() <= final(self).spec_buffer().len(),
            has_candidates(final(self).spec_dict(), final(self).spec_buffer(), 
                final(self).spec_begin() as int,
                final(self).spec_end() as int,
            ),
            old(self).spec_forward() ==> final(self).spec_begin() == old(self).spec_begin(),
            !old(self).spec_forward() ==> final(self).spec_end() == old(self).spec_end(),
    {
        if self.forward_select {
            let begin = self.begin;
            let ghost oldend = self.end as int;
            let mut e = self.end - 1;
            while e > begin
                invariant
                    begin <= e < oldend,
                    forall|x: int| e < x < oldend ==> !has_candidates(self.spec_dict(), self.spec_buffer(), begin as int, x),
                    *self == *old(self),
                decreases e,
            {
                if self.has_phrase(begin, e) {
                    self.end = e;
                    return ;
                }
                e = e - 1;
            }
            let mut e2 = self.next_break_point(begin);
            while e2 > begin
                invariant
                    begin <= e2 <= self.buffer@.len(),
                    forall|x: int| e2 < x <= self.buffer@.len() ==> !has_candidates(self.spec_dict(), self.spec_buffer(), 
                        begin as int,
                        x,
                    ),
                    *self == *old(self),
                decreases e2,
            {
                if self.has_phrase(begin, e2) {
                    self.end = e2;
                    return ;
                }
                e2 = e2 - 1;
            }
            proof {
                assert(false);
            }
        } else {
            let end = self.end;
            let ghost oldbegin = self.begin as int;
            let mut b = self.begin + 1;
            while b < end
                invariant
                    oldbegin < b <= end,
                    forall|x: int| oldbegin < x < b ==> !has_candidates(self.spec_dict(), self.spec_buffer(), x, end as int),
                    *self == *old(self),
                decreases end - b,
            {
                if self.has_phrase(b, end) {
                    self.begin = b;
                    return ;
                }
                b = b + 1;
            }
            let mut b2 = self.previous_break_point(end);
            while b2 < end
                invariant
                    self.prev_bp(end as int) <= b2 as int <= end,
                    forall|x: int| self.prev_bp(end as int) <= x < b2 as int
                        ==> !has_candidates(self.spec_dict(), self.spec_buffer(), x, end as int),
                    *self == *old(self),
                decreases end - b2,
            {
                if self.has_phrase(b2, end) {
                    self.begin = b2;
                    return ;
                }
                b2 = b2 + 1;
            }
            proof {
                assert(false);
            }
        }
    }

    /// The dictionary's candidates for the selected range.
    pub fn candidates(&self) -> (r: Vec<Phrase>)
        requires
            self.spec_begin() <= self.spec_end() <= self.spec_buffer().len(),
        ensures
            phrases_view(r@) == self.spec_dict().candidates_spec(
                symbol_codes(
                    self.spec_buffer().subrange(
                        self.spec_begin() as int,
                        self.spec_end() as int,
                    ),
                ),
            ),
    {
        let codes = self.extract_codes(self.begin, self.end);
        self.dict.lookup_phrase(codes.as_slice())
    }

    /// The selected range as an interval carrying the chosen phrase.
    pub fn interval(&self, phrase: String) -> (r: Interval)
        ensures
            r.start == self.spec_begin(),
            r.end == self.spec_end(),
            r.phrase@ == phrase@,
    {
        Interval { start: self.begin, end: self.end, phrase }
    }
}

} // verus!
