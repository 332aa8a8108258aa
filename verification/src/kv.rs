//! The overlay key-value dictionary.
//!
//! An immutable backing store of bulk phrase data is combined with a mutable
//! in-memory overlay of user edits and a tombstone set of soft deletions.
//! Queries merge the two sources and drop tombstoned keys; mutations only
//! ever touch the overlay and the tombstone set, never the backing store.

use crate::codec::{
    bytes_of_syls, decode_phrase_record, record_phrase, record_valid, syllable_bytes,
};
use crate::order::{bytes_cmp, key_cmp, key_lt, KeyOrder, KeyV};
use crate::phrase::{phrase_better, phrase_better_exec, phrases_view, Phrase, PhraseV};
use vstd::prelude::*;

verus! {

/// A phrase key: the syllable key bytes and the phrase text.
#[derive(Debug, Clone, PartialEq, Eq)]
pub struct PhraseKey {
    pub syllables: Vec<u8>,
    pub text: String,
}

impl View for PhraseKey {
    type V = KeyV;

    open spec fn view(&self) -> KeyV {
        KeyV { syllables: self.syllables@, text: self.text@ }
    }
}

/// One overlay entry: a phrase key with its frequency and last-used time.
#[derive(Debug, Clone)]
pub struct OverlayEntry {
    pub key: PhraseKey,
    pub freq: u32,
    pub last_used: u64,
}

/// Mathematical view of an overlay entry.
#[verifier::ext_equal]
pub struct OverlayEntryV {
    pub key: KeyV,
    pub freq: u32,
    pub last_used: u64,
}

impl View for OverlayEntry {
    type V = OverlayEntryV;

    open spec fn view(&self) -> OverlayEntryV {
        OverlayEntryV { key: self.key@, freq: self.freq, last_used: self.last_used }
    }
}

/// The phrase an overlay entry stands for.
pub open spec fn overlay_phrase(e: OverlayEntryV) -> PhraseV {
    PhraseV { phrase: e.key.text, freq: e.freq, last_used: Option::Some(e.last_used) }
}

/// The error raised by a failed dictionary update. In this core it carries
/// no cause: only a duplicate `add_phrase` raises it.
#[derive(Debug, Clone, PartialEq, Eq)]
pub struct DictionaryUpdateError {}

/// Static metadata about a dictionary.
#[derive(Debug, Clone, PartialEq, Eq)]
pub struct DictionaryInfo {
    pub name: String,
}

/// The capability a backing-store provider must satisfy: exact-key lookup
/// of raw values and full iteration in ascending phrase-key order.
pub trait KVStore: Sized {
    /// All raw values stored under exactly `key`, in any fixed order.
    spec fn find_spec(&self, key: Seq<u8>) -> Seq<Seq<u8>>;

    /// All raw pairs of the store, in the order `iter` yields them.
    spec fn iter_spec(&self) -> Seq<(Seq<u8>, Seq<u8>)>;

    /// Whether the store honours the ordering contract: its full iteration,
    /// decoded and filtered, is strictly ascending by phrase key.
    spec fn wf(&self) -> bool;

    /// Exact-key lookup: every stored value whose key equals `key`.
    fn find(&self, key: &[u8]) -> (r: Vec<Vec<u8>>)
        ensures
            r.deep_view() == self.find_spec(key@),
    ;

    /// Full iteration over all pairs of the store.
    fn iter(&self) -> (r: Vec<(Vec<u8>, Vec<u8>)>)
        ensures
            r.deep_view() == self.iter_spec(),
            self.wf() ==> sorted_entries(decode_pairs_spec(self.iter_spec())),
    ;
}

/// The null provider: no backing store at all, both operations are empty.
impl KVStore for () {
    open spec fn find_spec(&self, key: Seq<u8>) -> Seq<Seq<u8>> {
        Seq::empty()
    }

    open spec fn iter_spec(&self) -> Seq<(Seq<u8>, Seq<u8>)> {
        Seq::empty()
    }

    open spec fn wf(&self) -> bool {
        true
    }

    fn find(&self, key: &[u8]) -> (r: Vec<Vec<u8>>) {
        let r: Vec<Vec<u8>> = Vec::new();
        proof {
            assert(r.deep_view() =~= Seq::<Seq<u8>>::empty());
        }
        r
    }

    fn iter(&self) -> (r: Vec<(Vec<u8>, Vec<u8>)>) {
        let r: Vec<(Vec<u8>, Vec<u8>)> = Vec::new();
        proof {
            assert(r.deep_view() =~= Seq::<(Seq<u8>, Seq<u8>)>::empty());
            assert(decode_pairs_spec(Seq::empty()) =~= Seq::<(Seq<u8>, PhraseV)>::empty());
        }
        r
    }
}

/// Whether an overlay is strictly ascending by phrase key.
pub open spec fn overlay_sorted(s: Seq<OverlayEntryV>) -> bool {
    forall|i: int, j: int|
        0 <= i < j < s.len() ==> key_lt((#[trigger] s[i]).key, (#[trigger] s[j]).key)
}

/// Whether a sequence of decoded entries is strictly ascending by phrase key.
pub open spec fn sorted_entries(s: Seq<(Seq<u8>, PhraseV)>) -> bool {
    forall|i: int, j: int| 0 <= i < j < s.len() ==> key_lt(entry_key(#[trigger] s[i]), entry_key(#[trigger] s[j]))
}

/// The phrase key of a decoded entry.
pub open spec fn entry_key(e: (Seq<u8>, PhraseV)) -> KeyV {
    KeyV { syllables: e.0, text: e.1.phrase }
}

/// The reserved metadata key of a backing store.
pub open spec fn info_key() -> Seq<u8> {
    seq![73u8, 78u8, 70u8, 79u8]
}

/// The decoded view of a store's full iteration: the metadata key and
/// invalid records are dropped, valid records become phrases.
pub open spec fn decode_pairs_spec(s: Seq<(Seq<u8>, Seq<u8>)>) -> Seq<(Seq<u8>, PhraseV)>
    decreases s.len(),
{
    if s.len() == 0 {
        Seq::empty()
    } else {
        decode_pairs_spec(s.drop_last()) + if s.last().0 != info_key() && record_valid(
            s.last().1,
        ) {
            seq![(s.last().0, record_phrase(s.last().1))]
        } else {
            Seq::empty()
        }
    }
}

/// The decoded view of exact-key raw values: invalid records are dropped.
pub open spec fn decode_values_spec(s: Seq<Seq<u8>>) -> Seq<PhraseV>
    decreases s.len(),
{
    if s.len() == 0 {
        Seq::empty()
    } else {
        decode_values_spec(s.drop_last()) + if record_valid(s.last()) {
            seq![record_phrase(s.last())]
        } else {
            Seq::empty()
        }
    }
}

/// The overlay entries whose syllable-key component equals `syl`, as
/// phrases, in overlay order.
pub open spec fn overlay_range_spec(s: Seq<OverlayEntryV>, syl: Seq<u8>) -> Seq<PhraseV>
    decreases s.len(),
{
    if s.len() == 0 {
        Seq::empty()
    } else {
        overlay_range_spec(s.drop_last(), syl) + if s.last().key.syllables == syl {
            seq![overlay_phrase(s.last())]
        } else {
            Seq::empty()
        }
    }
}

/// Whether a key is in the tombstone set.
pub open spec fn grave_has(g: Seq<KeyV>, k: KeyV) -> bool {
    exists|i: int| 0 <= i < g.len() && g[i] == k
}

/// Drops from a phrase sequence every text tombstoned under `syl`.
pub open spec fn filter_tomb(g: Seq<KeyV>, syl: Seq<u8>, s: Seq<PhraseV>) -> Seq<PhraseV>
    decreases s.len(),
{
    if s.len() == 0 {
        Seq::empty()
    } else {
        filter_tomb(g, syl, s.drop_last()) + if !grave_has(
            g,
            KeyV { syllables: syl, text: s.last().phrase },
        ) {
            seq![s.last()]
        } else {
            Seq::empty()
        }
    }
}

/// Drops from a decoded entry sequence every tombstoned phrase key.
pub open spec fn filter_tomb_pairs(g: Seq<KeyV>, s: Seq<(Seq<u8>, PhraseV)>) -> Seq<
    (Seq<u8>, PhraseV),
>
    decreases s.len(),
{
    if s.len() == 0 {
        Seq::empty()
    } else {
        filter_tomb_pairs(g, s.drop_last()) + if !grave_has(g, entry_key(s.last())) {
            seq![s.last()]
        } else {
            Seq::empty()
        }
    }
}

/// Whether some phrase in the sequence has the given text.
pub open spec fn has_text(s: Seq<PhraseV>, t: Seq<char>) -> bool {
    exists|i: int| 0 <= i < s.len() && s[i].phrase == t
}

/// The overlay after an upsert of `k`: an entry with an equal key is
/// replaced in place, otherwise the new entry enters at its sorted position.
pub open spec fn overlay_insert_spec(s: Seq<OverlayEntryV>, k: KeyV, freq: u32, lu: u64) -> Seq<
    OverlayEntryV,
>
    decreases s.len(),
{
    let e = OverlayEntryV { key: k, freq, last_used: lu };
    if s.len() == 0 {
        seq![e]
    } else if key_lt(s[0].key, k) {
        seq![s[0]] + overlay_insert_spec(s.drop_first(), k, freq, lu)
    } else if s[0].key == k {
        seq![e] + s.drop_first()
    } else {
        seq![e] + s
    }
}

/// The overlay after removing `k`: the first entry with an equal key leaves.
pub open spec fn overlay_remove_spec(s: Seq<OverlayEntryV>, k: KeyV) -> Seq<OverlayEntryV>
    decreases s.len(),
{
    if s.len() == 0 {
        Seq::empty()
    } else if s[0].key == k {
        s.drop_first()
    } else {
        seq![s[0]] + overlay_remove_spec(s.drop_first(), k)
    }
}

/// The overlay dictionary: an optional backing store, the overlay map of
/// user edits (kept sorted by phrase key), and the tombstone set.
#[derive(Debug)]
pub struct KVDictionary<T> {
    store: Option<T>,
    btree: Vec<OverlayEntry>,
    graveyard: Vec<PhraseKey>,
}

impl<T: KVStore> KVDictionary<T> {
    /// The overlay map, as the sequence of its entries in order.
    pub closed spec fn overlay(self) -> Seq<OverlayEntryV> {
        self.btree@.map_values(|e: OverlayEntry| e@)
    }

    /// The tombstone set, as the sequence of recorded keys.
    pub closed spec fn grave(self) -> Seq<KeyV> {
        self.graveyard@.map_values(|k: PhraseKey| k@)
    }

    /// The backing store handle.
    pub closed spec fn spec_store(self) -> Option<T> {
        self.store
    }

    /// Well-formedness: the overlay is strictly ascending by phrase key.
    pub open spec fn wf(self) -> bool {
        overlay_sorted(self.overlay())
    }

    /// Whether the backing store, if any, honours its ordering contract.
    pub open spec fn store_ok(self) -> bool {
        match self.spec_store() {
            Option::Some(s) => s.wf(),
            Option::None => true,
        }
    }

    /// The raw values the backing store holds under `key`.
    pub open spec fn find_view(self, key: Seq<u8>) -> Seq<Seq<u8>> {
        match self.spec_store() {
            Option::Some(s) => s.find_spec(key),
            Option::None => Seq::empty(),
        }
    }

    /// The raw pairs the backing store's full iteration yields.
    pub open spec fn iter_view(self) -> Seq<(Seq<u8>, Seq<u8>)> {
        match self.spec_store() {
            Option::Some(s) => s.iter_spec(),
            Option::None => Seq::empty(),
        }
    }

    /// What an exact-key lookup sees before deduplication: decoded
    /// backing-store matches, then the overlay range, minus tombstones.
    pub open spec fn entries_for_spec(self, syl: Seq<u8>) -> Seq<PhraseV> {
        filter_tomb(
            self.grave(),
            syl,
            decode_values_spec(self.find_view(syl)) + overlay_range_spec(self.overlay(), syl),
        )
    }

    /// Creates a dictionary over a backing store, with an empty overlay.
    pub fn new(store: T) -> (r: KVDictionary<T>)
        ensures
            r.spec_store() == Option::Some(store),
            r.overlay() =~= Seq::<OverlayEntryV>::empty(),
            r.grave() =~= Seq::<KeyV>::empty(),
            r.wf(),
    {
        KVDictionary { store: Option::Some(store), btree: Vec::new(), graveyard: Vec::new() }
    }

    /// Creates a pure in-memory dictionary with no backing store.
    pub fn new_in_memory() -> (r: KVDictionary<T>)
        ensures
            r.spec_store() is None,
            r.overlay() =~= Seq::<OverlayEntryV>::empty(),
            r.grave() =~= Seq::<KeyV>::empty(),
            r.wf(),
    {
        KVDictionary { store: Option::None, btree: Vec::new(), graveyard: Vec::new() }
    }

    /// Rebinds a backing store around the overlay and tombstone state of
    /// another dictionary.
    pub fn from_raw_parts(store: T, other: KVDictionary<()>) -> (r: KVDictionary<T>)
        ensures
            r.spec_store() == Option::Some(store),
            r.overlay() == other.overlay(),
            r.grave() == other.grave(),
            other.wf() ==> r.wf(),
    {
        let r = KVDictionary {
            store: Option::Some(store),
            btree: other.btree,
            graveyard: other.graveyard,
        };
        proof {
            assert(r.overlay() =~= other.overlay());
            assert(r.grave() =~= other.grave());
        }
        r
    }

    /// Detaches and returns the backing store handle.
    pub fn take(&mut self) -> (r: Option<T>)
        ensures
            r == old(self).spec_store(),
            final(self).spec_store() is None,
            final(self).overlay() == old(self).overlay(),
            final(self).grave() == old(self).grave(),
    {
        self.store.take()
    }

    /// Attaches a backing store handle.
    pub fn set(&mut self, store: T)
        ensures
            final(self).spec_store() == Option::Some(store),
            final(self).overlay() == old(self).overlay(),
            final(self).grave() == old(self).grave(),
    {
        self.store = Option::Some(store);
    }

    /// Whether `k` is recorded in the tombstone set.
    #[verifier::loop_isolation(false)]
    fn grave_contains(&self, syl: &[u8], text: &str) -> (r: bool)
        ensures
            r == grave_has(self.grave(), KeyV { syllables: syl@, text: text@ }),
    {
        let ghost k = KeyV { syllables: syl@, text: text@ };
        let mut i: usize = 0;
        while i < self.graveyard.len()
            invariant
                0 <= i <= self.graveyard@.len(),
                forall|j: int| 0 <= j < i ==> self.grave()[j] != k,
                self.grave().len() == self.graveyard@.len(),
            decreases self.graveyard@.len() - i,
        {
            let g = &self.graveyard[i];
            proof {
                assert(*g == self.graveyard@[i as int]);
            }
            let c = key_cmp(g.syllables.as_slice(), g.text.as_str(), syl, text);
            proof {
                assert((c is Equal) == (KeyV { syllables: g.syllables@, text: g.text@ } == k));
                assert(KeyV { syllables: g.syllables@, text: g.text@ } == self.graveyard@[i as int]@);
            }
            proof {
                assert(self.grave()[i as int] == self.graveyard@[i as int]@);
            }
            match c {
                KeyOrder::Equal => {
                    proof {
                        assert(self.grave()[i as int] == k);
                    }
                    return true;
                },
                _ => {},
            }
            i = i + 1;
        }
        false
    }

    /// Every phrase an exact-key lookup can see for `syllable_bytes`:
    /// decoded backing-store matches, then the overlay range in order,
    /// with tombstoned texts dropped. Duplicate texts may remain.
    #[verifier::loop_isolation(false)]
    pub fn entries_iter_for(&self, syllable_bytes: &[u8]) -> (r: Vec<Phrase>)
        ensures
            phrases_view(r@) == self.entries_for_spec(syllable_bytes@),
    {
        let mut pool: Vec<Phrase> = Vec::new();
        let raws: Vec<Vec<u8>> = match &self.store {
            Option::Some(s) => s.find(syllable_bytes),
            Option::None => Vec::new(),
        };
        proof {
            assert(raws.deep_view() =~= self.find_view(syllable_bytes@));
            assert(raws.deep_view().take(0) =~= Seq::<Seq<u8>>::empty());
            assert(phrases_view(pool@) =~= decode_values_spec(raws.deep_view().take(0)));
        }
        let mut i: usize = 0;
        while i < raws.len()
            invariant
                0 <= i <= raws@.len(),
                raws.deep_view().len() == raws@.len(),
                phrases_view(pool@) == decode_values_spec(raws.deep_view().take(i as int)),
            decreases raws@.len() - i,
        {
            proof {
                let dv = raws.deep_view();
                assert(dv.take(i + 1).drop_last() =~= dv.take(i as int));
                assert(dv.take(i + 1).last() == dv[i as int]);
                assert(dv[i as int] == raws@[i as int]@);
            }
            match decode_phrase_record(raws[i].as_slice()) {
                Option::Some(p) => {
                    pool.push(p);
                    proof {
                        assert(phrases_view(pool@) =~= decode_values_spec(
                            raws.deep_view().take(i + 1),
                        ));
                    }
                },
                Option::None => {
                    proof {
                        assert(phrases_view(pool@) =~= decode_values_spec(
                            raws.deep_view().take(i + 1),
                        ));
                    }
                },
            }
            i = i + 1;
        }
        proof {
            assert(raws.deep_view().take(raws.deep_view().len() as int) =~= raws.deep_view());
        }
        let ghost decoded = decode_values_spec(self.find_view(syllable_bytes@));
        let mut j: usize = 0;
        while j < self.btree.len()
            invariant
                0 <= j <= self.btree@.len(),
                self.overlay().len() == self.btree@.len(),
                phrases_view(pool@) == decoded + overlay_range_spec(
                    self.overlay().take(j as int),
                    syllable_bytes@,
                ),
            decreases self.btree@.len() - j,
        {
            proof {
                let ov = self.overlay();
                assert(ov.take(j + 1).drop_last() =~= ov.take(j as int));
                assert(ov.take(j + 1).last() == ov[j as int]);
                assert(ov[j as int] == self.btree@[j as int]@);
            }
            let e = &self.btree[j];
            let same_key = match bytes_cmp(e.key.syllables.as_slice(), syllable_bytes) {
                KeyOrder::Equal => true,
                _ => false,
            };
            if same_key {
                let p = Phrase {
                    phrase: e.key.text.clone(),
                    freq: e.freq,
                    last_used: Option::Some(e.last_used),
                };
                let ghost prev = phrases_view(pool@);
                pool.push(p);
                proof {
                    let ov = self.overlay();
                    assert(p@ == overlay_phrase(ov[j as int]));
                    assert(phrases_view(pool@) =~= prev.push(p@));
                    assert(overlay_range_spec(ov.take(j + 1), syllable_bytes@)
                        =~= overlay_range_spec(ov.take(j as int), syllable_bytes@).push(
                        overlay_phrase(ov[j as int]),
                    ));
                    assert(phrases_view(pool@) =~= decoded + overlay_range_spec(
                        self.overlay().take(j + 1),
                        syllable_bytes@,
                    ));
                }
            } else {
                proof {
                    assert(phrases_view(pool@) =~= decoded + overlay_range_spec(
                        self.overlay().take(j + 1),
                        syllable_bytes@,
                    ));
                }
            }
            j = j + 1;
        }
        proof {
            assert(self.overlay().take(self.overlay().len() as int) =~= self.overlay());
        }
        let ghost unfiltered = decoded + overlay_range_spec(self.overlay(), syllable_bytes@);
        let mut out: Vec<Phrase> = Vec::new();
        let mut m: usize = 0;
        proof {
            assert(phrases_view(pool@).take(0) =~= Seq::<PhraseV>::empty());
            assert(phrases_view(out@) =~= filter_tomb(
                self.grave(),
                syllable_bytes@,
                unfiltered.take(0),
            ));
        }
        while m < pool.len()
            invariant
                0 <= m <= pool@.len(),
                phrases_view(pool@) == unfiltered,
                pool@.len() == unfiltered.len(),
                phrases_view(out@) == filter_tomb(
                    self.grave(),
                    syllable_bytes@,
                    unfiltered.take(m as int),
                ),
            decreases pool@.len() - m,
        {
            proof {
                assert(unfiltered.take(m + 1).drop_last() =~= unfiltered.take(m as int));
                assert(unfiltered.take(m + 1).last() == unfiltered[m as int]);
                assert(unfiltered[m as int] == pool@[m as int]@);
            }
            let p = &pool[m];
            if !self.grave_contains(syllable_bytes, p.phrase.as_str()) {
                let q = Phrase { phrase: p.phrase.clone(), freq: p.freq, last_used: p.last_used };
                out.push(q);
                proof {
                    assert(phrases_view(out@) =~= filter_tomb(
                        self.grave(),
                        syllable_bytes@,
                        unfiltered.take(m + 1),
                    ));
                }
            } else {
                proof {
                    assert(phrases_view(out@) =~= filter_tomb(
                        self.grave(),
                        syllable_bytes@,
                        unfiltered.take(m + 1),
                    ));
                }
            }
            m = m + 1;
        }
        proof {
            assert(unfiltered.take(unfiltered.len() as int) =~= unfiltered);
        }
        out
    }
}

/// Positional reading of `overlay_insert_spec`: with every key before `i`
/// below `k` and the key at `i` (if any) not below `k`, the upsert acts at
/// position `i`.
proof fn lemma_overlay_insert_at(s: Seq<OverlayEntryV>, k: KeyV, freq: u32, lu: u64, i: int)
    requires
        0 <= i <= s.len(),
        forall|j: int| 0 <= j < i ==> key_lt((#[trigger] s[j]).key, k),
        i < s.len() ==> !key_lt(s[i].key, k),
    ensures
        i < s.len() && s[i].key == k ==> overlay_insert_spec(s, k, freq, lu) =~= s.take(i).push(
            OverlayEntryV { key: k, freq, last_used: lu },
        ) + s.skip(i + 1),
        !(i < s.len() && s[i].key == k) ==> overlay_insert_spec(s, k, freq, lu) =~= s.take(i).push(
            OverlayEntryV { key: k, freq, last_used: lu },
        ) + s.skip(i),
    decreases i,
{
    let e = OverlayEntryV { key: k, freq, last_used: lu };
    if i == 0 {
        if s.len() > 0 {
            crate::order::lemma_key_lt_trichotomy(s[0].key, k);
        }
        assert(s.take(0).push(e) + s.skip(0) =~= seq![e] + s);
        if s.len() > 0 && s[0].key == k {
            assert(s.take(0).push(e) + s.skip(1) =~= seq![e] + s.drop_first());
        }
    } else {
        assert(key_lt(s[0].key, k));
        let t = s.drop_first();
        assert(forall|j: int| 0 <= j < i - 1 ==> (#[trigger] t[j]) == s[j + 1]);
        lemma_overlay_insert_at(t, k, freq, lu, i - 1);
        assert(s.take(i) =~= seq![s[0]] + t.take(i - 1));
        assert(s.skip(i) =~= t.skip(i - 1));
        if i < s.len() && s[i].key == k {
            assert(s.skip(i + 1) =~= t.skip(i));
            assert(t[i - 1].key == k);
            assert(overlay_insert_spec(s, k, freq, lu) == seq![s[0]] + overlay_insert_spec(
                t,
                k,
                freq,
                lu,
            ));
            assert(overlay_insert_spec(s, k, freq, lu) =~= s.take(i).push(e) + s.skip(i + 1));
        } else {
            assert(overlay_insert_spec(s, k, freq, lu) =~= s.take(i).push(e) + s.skip(i));
        }
    }
}

/// Every entry of an upsert result is the new entry or an old entry whose
/// key differs from `k`; the new entry is present.
proof fn lemma_overlay_insert_elems(s: Seq<OverlayEntryV>, k: KeyV, freq: u32, lu: u64)
    requires
        overlay_sorted(s),
    ensures
        ({
            let r = overlay_insert_spec(s, k, freq, lu);
            let e = OverlayEntryV { key: k, freq, last_used: lu };
            &&& r.len() >= 1
            &&& s.len() <= r.len() <= s.len() + 1
            &&& exists|i: int| 0 <= i < r.len() && r[i] == e
            &&& forall|i: int|
                0 <= i < r.len() ==> ((#[trigger] r[i]) == e || exists|j: int|
                    0 <= j < s.len() && s[j] == r[i] && s[j].key != k)
        }),
    decreases s.len(),
{
    let r = overlay_insert_spec(s, k, freq, lu);
    let e = OverlayEntryV { key: k, freq, last_used: lu };
    if s.len() == 0 {
        assert(r[0] == e);
    } else if key_lt(s[0].key, k) {
        let t = s.drop_first();
        assert(forall|j: int| 0 <= j < t.len() ==> (#[trigger] t[j]) == s[j + 1]);
        lemma_overlay_insert_elems(t, k, freq, lu);
        let rt = overlay_insert_spec(t, k, freq, lu);
        crate::order::lemma_key_lt_trichotomy(s[0].key, k);
        assert(r == seq![s[0]] + rt);
        assert forall|i: int| 0 <= i < r.len() implies ((#[trigger] r[i]) == e || exists|j: int|
            0 <= j < s.len() && s[j] == r[i] && s[j].key != k) by {
            if i == 0 {
                assert(s[0] == r[0] && s[0].key != k);
            } else {
                assert(r[i] == rt[i - 1]);
                if rt[i - 1] != e {
                    let j = choose|j: int| 0 <= j < t.len() && t[j] == rt[i - 1] && t[j].key != k;
                    assert(s[j + 1] == r[i] && s[j + 1].key != k);
                }
            }
        }
        let wi = choose|i: int| 0 <= i < rt.len() && rt[i] == e;
        assert(r[wi + 1] == e);
    } else if s[0].key == k {
        assert(r == seq![e] + s.drop_first());
        assert(r[0] == e);
        assert forall|i: int| 0 <= i < r.len() implies ((#[trigger] r[i]) == e || exists|j: int|
            0 <= j < s.len() && s[j] == r[i] && s[j].key != k) by {
            if i > 0 {
                assert(r[i] == s.drop_first()[i - 1]);
                assert(r[i] == s[i]);
                assert(key_lt(s[0].key, s[i].key));
                crate::order::lemma_key_lt_trichotomy(s[i].key, k);
                assert(s[i].key != k);
            }
        }
    } else {
        crate::order::lemma_key_lt_trichotomy(s[0].key, k);
        assert(key_lt(k, s[0].key));
        assert(r == seq![e] + s);
        assert(r[0] == e);
        assert forall|i: int| 0 <= i < r.len() implies ((#[trigger] r[i]) == e || exists|j: int|
            0 <= j < s.len() && s[j] == r[i] && s[j].key != k) by {
            if i > 0 {
                assert(r[i] == s[i - 1]);
                if i - 1 > 0 {
                    assert(key_lt(s[0].key, s[i - 1].key));
                    crate::order::lemma_key_lt_trans(k, s[0].key, s[i - 1].key);
                }
                crate::order::lemma_key_lt_trichotomy(s[i - 1].key, k);
                assert(s[i - 1].key != k);
            }
        }
    }
}

/// An upsert into a sorted overlay leaves it sorted.
proof fn lemma_overlay_insert_sorted(s: Seq<OverlayEntryV>, k: KeyV, freq: u32, lu: u64)
    requires
        overlay_sorted(s),
    ensures
        overlay_sorted(overlay_insert_spec(s, k, freq, lu)),
    decreases s.len(),
{
    let r = overlay_insert_spec(s, k, freq, lu);
    let e = OverlayEntryV { key: k, freq, last_used: lu };
    if s.len() == 0 {
    } else if key_lt(s[0].key, k) {
        let t = s.drop_first();
        assert(forall|j: int| 0 <= j < t.len() ==> (#[trigger] t[j]) == s[j + 1]);
        lemma_overlay_insert_sorted(t, k, freq, lu);
        lemma_overlay_insert_elems(t, k, freq, lu);
        let rt = overlay_insert_spec(t, k, freq, lu);
        assert(r == seq![s[0]] + rt);
        assert forall|i: int, j: int| 0 <= i < j < r.len() implies key_lt(
            (#[trigger] r[i]).key,
            (#[trigger] r[j]).key,
        ) by {
            if i == 0 {
                assert(r[j] == rt[j - 1]);
                if rt[j - 1] == e {
                    assert(key_lt(s[0].key, k));
                } else {
                    let m = choose|m: int| 0 <= m < t.len() && t[m] == rt[j - 1] && t[m].key != k;
                    assert(key_lt(s[0].key, s[m + 1].key));
                }
            } else {
                assert(r[i] == rt[i - 1] && r[j] == rt[j - 1]);
            }
        }
    } else if s[0].key == k {
        let t = s.drop_first();
        assert(forall|j: int| 0 <= j < t.len() ==> (#[trigger] t[j]) == s[j + 1]);
        assert(r == seq![e] + t);
        assert forall|i: int, j: int| 0 <= i < j < r.len() implies key_lt(
            (#[trigger] r[i]).key,
            (#[trigger] r[j]).key,
        ) by {
            if i == 0 {
                assert(r[j] == s[j]);
                assert(key_lt(s[0].key, s[j].key));
            } else {
                assert(r[i] == s[i] && r[j] == s[j]);
            }
        }
    } else {
        crate::order::lemma_key_lt_trichotomy(s[0].key, k);
        assert(r == seq![e] + s);
        assert forall|i: int, j: int| 0 <= i < j < r.len() implies key_lt(
            (#[trigger] r[i]).key,
            (#[trigger] r[j]).key,
        ) by {
            if i == 0 {
                assert(r[j] == s[j - 1]);
                if j - 1 > 0 {
                    crate::order::lemma_key_lt_trans(k, s[0].key, s[j - 1].key);
                }
            } else {
                assert(r[i] == s[i - 1] && r[j] == s[j - 1]);
            }
        }
    }
}

/// Positional reading of `overlay_remove_spec`: the first entry with key
/// `k` leaves; nothing changes when no key matches.
proof fn lemma_overlay_remove_at(s: Seq<OverlayEntryV>, k: KeyV, i: int)
    requires
        0 <= i <= s.len(),
        forall|j: int| 0 <= j < i ==> (#[trigger] s[j]).key != k,
        i < s.len() ==> s[i].key == k,
    ensures
        i < s.len() ==> overlay_remove_spec(s, k) =~= s.take(i) + s.skip(i + 1),
        i == s.len() ==> overlay_remove_spec(s, k) =~= s,
    decreases i,
{
    if i == 0 {
        if s.len() > 0 {
            assert(s.take(0) + s.skip(1) =~= s.drop_first());
        }
    } else {
        let t = s.drop_first();
        assert(forall|j: int| 0 <= j < t.len() ==> (#[trigger] t[j]) == s[j + 1]);
        lemma_overlay_remove_at(t, k, i - 1);
        assert(s[0].key != k);
        assert(overlay_remove_spec(s, k) == seq![s[0]] + overlay_remove_spec(t, k));
        if i < s.len() {
            assert(s.take(i) =~= seq![s[0]] + t.take(i - 1));
            assert(s.skip(i + 1) =~= t.skip(i));
            assert(overlay_remove_spec(s, k) =~= s.take(i) + s.skip(i + 1));
        } else {
            assert(overlay_remove_spec(s, k) =~= s);
        }
    }
}

/// Removing from a sorted overlay leaves it sorted, and every surviving
/// entry is one of the old entries.
proof fn lemma_overlay_remove_sorted(s: Seq<OverlayEntryV>, k: KeyV)
    requires
        overlay_sorted(s),
    ensures
        overlay_sorted(overlay_remove_spec(s, k)),
        forall|i: int|
            0 <= i < overlay_remove_spec(s, k).len() ==> exists|j: int|
                0 <= j < s.len() && s[j] == #[trigger] overlay_remove_spec(s, k)[i],
    decreases s.len(),
{
    let r = overlay_remove_spec(s, k);
    if s.len() == 0 {
    } else if s[0].key == k {
        let t = s.drop_first();
        assert(forall|j: int| 0 <= j < t.len() ==> (#[trigger] t[j]) == s[j + 1]);
        assert forall|i: int| 0 <= i < r.len() implies exists|j: int|
            0 <= j < s.len() && s[j] == #[trigger] r[i] by {
            assert(s[i + 1] == r[i]);
        }
    } else {
        let t = s.drop_first();
        assert(forall|j: int| 0 <= j < t.len() ==> (#[trigger] t[j]) == s[j + 1]);
        lemma_overlay_remove_sorted(t, k);
        let rt = overlay_remove_spec(t, k);
        assert(r == seq![s[0]] + rt);
        assert forall|i: int| 0 <= i < r.len() implies exists|j: int|
            0 <= j < s.len() && s[j] == #[trigger] r[i] by {
            if i == 0 {
                assert(s[0] == r[0]);
            } else {
                let m = choose|m: int| 0 <= m < t.len() && t[m] == rt[i - 1];
                assert(s[m + 1] == r[i]);
            }
        }
        assert forall|i: int, j: int| 0 <= i < j < r.len() implies key_lt(
            (#[trigger] r[i]).key,
            (#[trigger] r[j]).key,
        ) by {
            if i == 0 {
                let m = choose|m: int| 0 <= m < t.len() && t[m] == rt[j - 1];
                assert(r[j] == t[m]);
                assert(key_lt(s[0].key, s[m + 1].key));
            } else {
                assert(r[i] == rt[i - 1] && r[j] == rt[j - 1]);
            }
        }
    }
}

/// The last-used value stored for a freshly added phrase: zero when absent.
pub open spec fn lu_or_zero(o: Option<u64>) -> u64 {
    match o {
        Option::Some(t) => t,
        Option::None => 0,
    }
}

impl<T: KVStore> KVDictionary<T> {
    /// Whether the overlay entry at `i` sorts strictly below `k`.
    fn entry_lt(&self, i: usize, syl: &[u8], text: &str) -> (r: bool)
        requires
            i < self.overlay().len(),
        ensures
            r == key_lt(self.overlay()[i as int].key, KeyV { syllables: syl@, text: text@ }),
    {
        let e = &self.btree[i];
        proof {
            assert(self.overlay()[i as int] == self.btree@[i as int]@);
        }
        match key_cmp(e.key.syllables.as_slice(), e.key.text.as_str(), syl, text) {
            KeyOrder::Less => true,
            _ => false,
        }
    }

    /// Whether the overlay entry at `i` has exactly the key `k`.
    fn entry_key_eq(&self, i: usize, syl: &[u8], text: &str) -> (r: bool)
        requires
            i < self.overlay().len(),
        ensures
            r == (self.overlay()[i as int].key == KeyV { syllables: syl@, text: text@ }),
    {
        let e = &self.btree[i];
        proof {
            assert(self.overlay()[i as int] == self.btree@[i as int]@);
        }
        match key_cmp(e.key.syllables.as_slice(), e.key.text.as_str(), syl, text) {
            KeyOrder::Equal => true,
            _ => false,
        }
    }

    /// Upserts one overlay entry at its sorted position.
    #[verifier::loop_isolation(false)]
    fn overlay_upsert(&mut self, key: PhraseKey, freq: u32, last_used: u64)
        ensures
            final(self).overlay() == overlay_insert_spec(old(self).overlay(), key@, freq, last_used),
            final(self).grave() == old(self).grave(),
            final(self).spec_store() == old(self).spec_store(),
    {
        let ghost s0 = self.overlay();
        let ghost k = key@;
        let mut i: usize = 0;
        while i < self.btree.len() && self.entry_lt(i, key.syllables.as_slice(), key.text.as_str())
            invariant
                0 <= i <= self.btree@.len(),
                forall|j: int| 0 <= j < i ==> key_lt((#[trigger] s0[j]).key, k),
                *self == *old(self),
            decreases self.btree@.len() - i,
        {
            i = i + 1;
        }
        proof {
            assert(s0.len() == self.btree@.len());
        }
        let entry = OverlayEntry { key, freq, last_used };
        if i < self.btree.len() && self.entry_key_eq(
            i,
            entry.key.syllables.as_slice(),
            entry.key.text.as_str(),
        ) {
            proof {
                lemma_overlay_insert_at(s0, k, freq, last_used, i as int);
            }
            let _ = self.btree.remove(i);
            self.btree.insert(i, entry);
            proof {
                assert(final(self).overlay() =~= s0.take(i as int).push(
                    OverlayEntryV { key: k, freq, last_used },
                ) + s0.skip(i as int + 1));
                assert(final(self).grave() =~= old(self).grave());
            }
        } else {
            proof {
                if i < s0.len() {
                    crate::order::lemma_key_lt_trichotomy(s0[i as int].key, k);
                }
                lemma_overlay_insert_at(s0, k, freq, last_used, i as int);
            }
            self.btree.insert(i, entry);
            proof {
                assert(final(self).overlay() =~= s0.take(i as int).push(
                    OverlayEntryV { key: k, freq, last_used },
                ) + s0.skip(i as int));
                assert(final(self).grave() =~= old(self).grave());
            }
        }
    }

    /// Adds a phrase under a syllable sequence. Fails with a duplicate-phrase
    /// error exactly when a non-tombstoned entry with the same syllable key
    /// and text is already visible, from either source; the dictionary is
    /// then unchanged. On success the phrase enters the overlay, with a
    /// missing last-used time stored as zero.
    #[verifier::loop_isolation(false)]
    pub fn add_phrase(&mut self, syllables: &[u16], phrase: Phrase) -> (r: Result<
        (),
        DictionaryUpdateError,
    >)
        ensures
            (r is Err) == has_text(
                old(self).entries_for_spec(bytes_of_syls(syllables@)),
                phrase@.phrase,
            ),
            r is Err ==> *final(self) == *old(self),
            r is Ok ==> final(self).overlay() == overlay_insert_spec(
                old(self).overlay(),
                KeyV { syllables: bytes_of_syls(syllables@), text: phrase@.phrase },
                phrase@.freq,
                lu_or_zero(phrase@.last_used),
            ),
            final(self).grave() == old(self).grave(),
            final(self).spec_store() == old(self).spec_store(),
            old(self).wf() ==> final(self).wf(),
    {
        let syl = syllable_bytes(syllables);
        let pool = self.entries_iter_for(syl.as_slice());
        let ghost pv = phrases_view(pool@);
        let mut m: usize = 0;
        while m < pool.len()
            invariant
                0 <= m <= pool@.len(),
                forall|j: int| 0 <= j < m ==> (#[trigger] pv[j]).phrase != phrase@.phrase,
            decreases pool@.len() - m,
        {
            proof {
                assert(pv[m as int] == pool@[m as int]@);
            }
            if pool[m].phrase == phrase.phrase {
                return Result::Err(DictionaryUpdateError {});
            }
            m = m + 1;
        }
        proof {
            assert(!has_text(pv, phrase@.phrase));
        }
        let lu = match phrase.last_used {
            Option::Some(t) => t,
            Option::None => 0,
        };
        let freq = phrase.freq;
        let key = PhraseKey { syllables: syl, text: phrase.phrase };
        proof {
            if old(self).wf() {
                lemma_overlay_insert_sorted(old(self).overlay(), key@, freq, lu);
            }
        }
        self.overlay_upsert(key, freq, lu);
        Result::Ok(())
    }

    /// Upserts a phrase with the given frequency and timestamp, whether or
    /// not the key exists anywhere. Never fails.
    pub fn update_phrase(&mut self, syllables: &[u16], phrase: Phrase, user_freq: u32, time: u64) -> (r:
        Result<(), DictionaryUpdateError>)
        ensures
            r is Ok,
            final(self).overlay() == overlay_insert_spec(
                old(self).overlay(),
                KeyV { syllables: bytes_of_syls(syllables@), text: phrase@.phrase },
                user_freq,
                time,
            ),
            final(self).grave() == old(self).grave(),
            final(self).spec_store() == old(self).spec_store(),
            old(self).wf() ==> final(self).wf(),
    {
        let syl = syllable_bytes(syllables);
        let key = PhraseKey { syllables: syl, text: phrase.phrase };
        proof {
            if old(self).wf() {
                lemma_overlay_insert_sorted(old(self).overlay(), key@, user_freq, time);
            }
        }
        self.overlay_upsert(key, user_freq, time);
        Result::Ok(())
    }

    /// Deletes the exact key from the overlay (a no-op when absent) and
    /// unconditionally records it in the tombstone set. Never fails: this is
    /// how backing-store phrases are removed without touching the store.
    #[verifier::loop_isolation(false)]
    pub fn remove_phrase(&mut self, syllables: &[u16], phrase_str: &str) -> (r: Result<
        (),
        DictionaryUpdateError,
    >)
        ensures
            r is Ok,
            final(self).overlay() == overlay_remove_spec(
                old(self).overlay(),
                KeyV { syllables: bytes_of_syls(syllables@), text: phrase_str@ },
            ),
            final(self).grave() == old(self).grave().push(
                KeyV { syllables: bytes_of_syls(syllables@), text: phrase_str@ },
            ),
            final(self).spec_store() == old(self).spec_store(),
            old(self).wf() ==> final(self).wf(),
    {
        let syl = syllable_bytes(syllables);
        let ghost s0 = self.overlay();
        let ghost k = KeyV { syllables: syl@, text: phrase_str@ };
        let mut i: usize = 0;
        while i < self.btree.len() && !self.entry_key_eq(i, syl.as_slice(), phrase_str)
            invariant
                0 <= i <= self.btree@.len(),
                forall|j: int| 0 <= j < i ==> (#[trigger] s0[j]).key != k,
                *self == *old(self),
            decreases self.btree@.len() - i,
        {
            i = i + 1;
        }
        proof {
            assert(s0.len() == self.btree@.len());
            lemma_overlay_remove_at(s0, k, i as int);
            if old(self).wf() {
                lemma_overlay_remove_sorted(s0, k);
            }
        }
        if i < self.btree.len() {
            let _ = self.btree.remove(i);
            proof {
                assert(self.overlay() =~= s0.take(i as int) + s0.skip(i as int + 1));
            }
        }
        let key = PhraseKey { syllables: syl, text: phrase_str.to_owned() };
        self.graveyard.push(key);
        proof {
            assert(final(self).grave() =~= old(self).grave().push(k));
            if old(self).wf() {
                assert(overlay_sorted(final(self).overlay()));
            }
        }
        Result::Ok(())
    }
}

/// The sorted two-way merge of the decoded backing-store stream and the
/// overlay stream. Unequal keys: the smaller entry is emitted and only its
/// stream advances. Equal keys: when the store's frequency is at most the
/// overlay's, the overlay entry is emitted, else the store entry; both
/// streams advance.
pub open spec fn merge_spec(a: Seq<(Seq<u8>, PhraseV)>, b: Seq<(Seq<u8>, PhraseV)>) -> Seq<
    (Seq<u8>, PhraseV),
>
    decreases a.len() + b.len(),
{
    if a.len() == 0 {
        b
    } else if b.len() == 0 {
        a
    } else if key_lt(entry_key(a[0]), entry_key(b[0])) {
        seq![a[0]] + merge_spec(a.drop_first(), b)
    } else if key_lt(entry_key(b[0]), entry_key(a[0])) {
        seq![b[0]] + merge_spec(a, b.drop_first())
    } else if a[0].1.freq <= b[0].1.freq {
        seq![b[0]] + merge_spec(a.drop_first(), b.drop_first())
    } else {
        seq![a[0]] + merge_spec(a.drop_first(), b.drop_first())
    }
}

/// The view of a vector of owned dictionary entries.
pub open spec fn pairs_view(s: Seq<(Vec<u8>, Phrase)>) -> Seq<(Seq<u8>, PhraseV)> {
    s.map_values(|e: (Vec<u8>, Phrase)| (e.0@, e.1@))
}

/// Copies a byte vector.
fn clone_bytes(v: &Vec<u8>) -> (r: Vec<u8>)
    ensures
        r@ == v@,
{
    let mut out: Vec<u8> = Vec::new();
    let mut i: usize = 0;
    while i < v.len()
        invariant
            0 <= i <= v@.len(),
            out@ =~= v@.take(i as int),
        decreases v@.len() - i,
    {
        out.push(v[i]);
        proof {
            assert(out@ =~= v@.take(i as int + 1));
        }
        i = i + 1;
    }
    proof {
        assert(v@.take(v@.len() as int) =~= v@);
    }
    out
}

/// Copies a phrase.
fn clone_phrase(p: &Phrase) -> (r: Phrase)
    ensures
        r@ == p@,
{
    Phrase { phrase: p.phrase.clone(), freq: p.freq, last_used: p.last_used }
}

impl<T: KVStore> KVDictionary<T> {
    /// The decoded view of the backing store's full iteration.
    pub open spec fn store_entries_spec(self) -> Seq<(Seq<u8>, PhraseV)> {
        decode_pairs_spec(self.iter_view())
    }

    /// The overlay as a stream of decoded entries, in overlay order.
    pub open spec fn overlay_entries_spec(self) -> Seq<(Seq<u8>, PhraseV)> {
        self.overlay().map_values(|e: OverlayEntryV| (e.key.syllables, overlay_phrase(e)))
    }

    /// What full iteration yields: the merge of both streams, minus
    /// tombstoned keys.
    pub open spec fn entries_spec(self) -> Seq<(Seq<u8>, PhraseV)> {
        filter_tomb_pairs(self.grave(), merge_spec(self.store_entries_spec(), self.overlay_entries_spec()))
    }

    /// The whole merged dictionary, one entry per distinct phrase key, each
    /// the higher-frequency (overlay-preferred on a tie) variant, in
    /// ascending phrase-key order, tombstoned keys dropped.
    #[verifier::loop_isolation(false)]
    #[verifier::rlimit(100)]
    pub fn entries_iter(&self) -> (r: Vec<(Vec<u8>, Phrase)>)
        ensures
            pairs_view(r@) == self.entries_spec(),
    {
        // Decode the backing store's full iteration, dropping the metadata
        // key and invalid records.
        let raws: Vec<(Vec<u8>, Vec<u8>)> = match &self.store {
            Option::Some(st) => st.iter(),
            Option::None => Vec::new(),
        };
        proof {
            assert(raws.deep_view() =~= self.iter_view());
        }
        let info: Vec<u8> = vec![73u8, 78u8, 70u8, 79u8];
        proof {
            assert(info@ =~= info_key());
        }
        let mut store_vec: Vec<(Vec<u8>, Phrase)> = Vec::new();
        let mut i: usize = 0;
        proof {
            assert(raws.deep_view().take(0) =~= Seq::<(Seq<u8>, Seq<u8>)>::empty());
            assert(pairs_view(store_vec@) =~= decode_pairs_spec(raws.deep_view().take(0)));
        }
        while i < raws.len()
            invariant
                0 <= i <= raws@.len(),
                raws.deep_view().len() == raws@.len(),
                pairs_view(store_vec@) == decode_pairs_spec(raws.deep_view().take(i as int)),
            decreases raws@.len() - i,
        {
            proof {
                let dv = raws.deep_view();
                assert(dv.take(i + 1).drop_last() =~= dv.take(i as int));
                assert(dv.take(i + 1).last() == dv[i as int]);
                assert(dv[i as int] == (raws@[i as int].0@, raws@[i as int].1@));
            }
            let pair = &raws[i];
            let is_info = match bytes_cmp(pair.0.as_slice(), info.as_slice()) {
                KeyOrder::Equal => true,
                _ => false,
            };
            if !is_info {
                match decode_phrase_record(pair.1.as_slice()) {
                    Option::Some(p) => {
                        store_vec.push((clone_bytes(&pair.0), p));
                        proof {
                            assert(pairs_view(store_vec@) =~= decode_pairs_spec(
                                raws.deep_view().take(i + 1),
                            ));
                        }
                    },
                    Option::None => {
                        proof {
                            assert(pairs_view(store_vec@) =~= decode_pairs_spec(
                                raws.deep_view().take(i + 1),
                            ));
                        }
                    },
                }
            } else {
                proof {
                    assert(pairs_view(store_vec@) =~= decode_pairs_spec(
                        raws.deep_view().take(i + 1),
                    ));
                }
            }
            i = i + 1;
        }
        proof {
            assert(raws.deep_view().take(raws.deep_view().len() as int) =~= raws.deep_view());
            assert(pairs_view(store_vec@) == self.store_entries_spec());
        }
        // The overlay stream, already in ascending key order.
        let mut over_vec: Vec<(Vec<u8>, Phrase)> = Vec::new();
        let mut j: usize = 0;
        proof {
            assert(pairs_view(over_vec@) =~= self.overlay_entries_spec().take(0));
        }
        while j < self.btree.len()
            invariant
                0 <= j <= self.btree@.len(),
                self.overlay().len() == self.btree@.len(),
                self.overlay_entries_spec().len() == self.btree@.len(),
                pairs_view(over_vec@) == self.overlay_entries_spec().take(j as int),
            decreases self.btree@.len() - j,
        {
            let e = &self.btree[j];
            let p = Phrase {
                phrase: e.key.text.clone(),
                freq: e.freq,
                last_used: Option::Some(e.last_used),
            };
            over_vec.push((clone_bytes(&e.key.syllables), p));
            proof {
                let os = self.overlay_entries_spec();
                assert(self.overlay()[j as int] == self.btree@[j as int]@);
                assert(os[j as int] == (
                    self.overlay()[j as int].key.syllables,
                    overlay_phrase(self.overlay()[j as int]),
                ));
                assert(os.take(j + 1) =~= os.take(j as int).push(os[j as int]));
                assert(pairs_view(over_vec@) =~= os.take(j + 1));
            }
            j = j + 1;
        }
        proof {
            let os = self.overlay_entries_spec();
            assert(os.take(os.len() as int) =~= os);
        }
        // The sorted merge of the two streams.
        let ghost aa = pairs_view(store_vec@);
        let ghost bb = pairs_view(over_vec@);
        let mut merged: Vec<(Vec<u8>, Phrase)> = Vec::new();
        let mut si: usize = 0;
        let mut oj: usize = 0;
        proof {
            assert(aa.skip(0) =~= aa);
            assert(bb.skip(0) =~= bb);
        }
        while si < store_vec.len() || oj < over_vec.len()
            invariant
                0 <= si <= store_vec@.len(),
                0 <= oj <= over_vec@.len(),
                aa.len() == store_vec@.len(),
                bb.len() == over_vec@.len(),
                merge_spec(aa, bb) == pairs_view(merged@) + merge_spec(
                    aa.skip(si as int),
                    bb.skip(oj as int),
                ),
            decreases store_vec@.len() - si + over_vec@.len() - oj,
        {
            let ghost ra = aa.skip(si as int);
            let ghost rb = bb.skip(oj as int);
            if oj >= over_vec.len() {
                proof {
                    assert(ra[0] == aa[si as int]);
                    assert(ra.drop_first() =~= aa.skip(si as int + 1));
                    assert(rb =~= Seq::<(Seq<u8>, PhraseV)>::empty());
                    assert(merge_spec(ra, rb) == ra);
                    assert(ra =~= seq![ra[0]] + ra.drop_first());
                }
                let e = &store_vec[si];
                merged.push((clone_bytes(&e.0), clone_phrase(&e.1)));
                proof {
                    assert(pairs_view(merged@) =~= (pairs_view(merged@).drop_last()).push(
                        aa[si as int],
                    ));
                    assert(merge_spec(aa, bb) =~= pairs_view(merged@) + merge_spec(
                        aa.skip(si as int + 1),
                        bb.skip(oj as int),
                    ));
                }
                si = si + 1;
            } else if si >= store_vec.len() {
                proof {
                    assert(rb[0] == bb[oj as int]);
                    assert(rb.drop_first() =~= bb.skip(oj as int + 1));
                    assert(ra =~= Seq::<(Seq<u8>, PhraseV)>::empty());
                    assert(merge_spec(ra, rb) == rb);
                    assert(rb =~= seq![rb[0]] + rb.drop_first());
                }
                let e = &over_vec[oj];
                merged.push((clone_bytes(&e.0), clone_phrase(&e.1)));
                proof {
                    assert(merge_spec(aa, bb) =~= pairs_view(merged@) + merge_spec(
                        aa.skip(si as int),
                        bb.skip(oj as int + 1),
                    ));
                }
                oj = oj + 1;
            } else {
                proof {
                    assert(ra[0] == aa[si as int]);
                    assert(rb[0] == bb[oj as int]);
                    assert(ra.drop_first() =~= aa.skip(si as int + 1));
                    assert(rb.drop_first() =~= bb.skip(oj as int + 1));
                }
                let a = &store_vec[si];
                let b = &over_vec[oj];
                let c = key_cmp(
                    a.0.as_slice(),
                    a.1.phrase.as_str(),
                    b.0.as_slice(),
                    b.1.phrase.as_str(),
                );
                proof {
                    assert(entry_key(ra[0]) == KeyV { syllables: a.0@, text: a.1.phrase@ });
                    assert(entry_key(rb[0]) == KeyV { syllables: b.0@, text: b.1.phrase@ });
                }
                match c {
                    KeyOrder::Less => {
                        merged.push((clone_bytes(&a.0), clone_phrase(&a.1)));
                        proof {
                            assert(merge_spec(ra, rb) == seq![ra[0]] + merge_spec(
                                ra.drop_first(),
                                rb,
                            ));
                            assert(merge_spec(aa, bb) =~= pairs_view(merged@) + merge_spec(
                                aa.skip(si as int + 1),
                                bb.skip(oj as int),
                            ));
                        }
                        si = si + 1;
                    },
                    KeyOrder::Greater => {
                        merged.push((clone_bytes(&b.0), clone_phrase(&b.1)));
                        proof {
                            assert(merge_spec(ra, rb) == seq![rb[0]] + merge_spec(
                                ra,
                                rb.drop_first(),
                            ));
                            assert(merge_spec(aa, bb) =~= pairs_view(merged@) + merge_spec(
                                aa.skip(si as int),
                                bb.skip(oj as int + 1),
                            ));
                        }
                        oj = oj + 1;
                    },
                    KeyOrder::Equal => {
                        if a.1.freq <= b.1.freq {
                            merged.push((clone_bytes(&b.0), clone_phrase(&b.1)));
                            proof {
                                assert(merge_spec(ra, rb) == seq![rb[0]] + merge_spec(
                                    ra.drop_first(),
                                    rb.drop_first(),
                                ));
                                assert(merge_spec(aa, bb) =~= pairs_view(merged@) + merge_spec(
                                    aa.skip(si as int + 1),
                                    bb.skip(oj as int + 1),
                                ));
                            }
                        } else {
                            merged.push((clone_bytes(&a.0), clone_phrase(&a.1)));
                            proof {
                                assert(merge_spec(ra, rb) == seq![ra[0]] + merge_spec(
                                    ra.drop_first(),
                                    rb.drop_first(),
                                ));
                                assert(merge_spec(aa, bb) =~= pairs_view(merged@) + merge_spec(
                                    aa.skip(si as int + 1),
                                    bb.skip(oj as int + 1),
                                ));
                            }
                        }
                        si = si + 1;
                        oj = oj + 1;
                    },
                }
            }
        }
        proof {
            assert(aa.skip(si as int).len() == 0);
            assert(bb.skip(oj as int).len() == 0);
            assert(merge_spec(aa.skip(si as int), bb.skip(oj as int)).len() == 0);
            assert(merge_spec(aa, bb) =~= pairs_view(merged@));
        }
        // Drop tombstoned keys.
        let ghost mm = pairs_view(merged@);
        let mut out: Vec<(Vec<u8>, Phrase)> = Vec::new();
        let mut m: usize = 0;
        proof {
            assert(mm.take(0) =~= Seq::<(Seq<u8>, PhraseV)>::empty());
            assert(pairs_view(out@) =~= filter_tomb_pairs(self.grave(), mm.take(0)));
        }
        while m < merged.len()
            invariant
                0 <= m <= merged@.len(),
                mm.len() == merged@.len(),
                pairs_view(out@) == filter_tomb_pairs(self.grave(), mm.take(m as int)),
            decreases merged@.len() - m,
        {
            proof {
                assert(mm.take(m + 1).drop_last() =~= mm.take(m as int));
                assert(mm.take(m + 1).last() == mm[m as int]);
            }
            let e = &merged[m];
            if !self.grave_contains(e.0.as_slice(), e.1.phrase.as_str()) {
                out.push((clone_bytes(&e.0), clone_phrase(&e.1)));
                proof {
                    assert(pairs_view(out@) =~= filter_tomb_pairs(self.grave(), mm.take(m + 1)));
                }
            } else {
                proof {
                    assert(pairs_view(out@) =~= filter_tomb_pairs(self.grave(), mm.take(m + 1)));
                }
            }
            m = m + 1;
        }
        proof {
            assert(mm.take(mm.len() as int) =~= mm);
        }
        out
    }

    /// The whole merged dictionary with each syllable key decoded back into
    /// its syllable codes.
    #[verifier::loop_isolation(false)]
    pub fn entries(&self) -> (r: Vec<(Vec<u16>, Phrase)>)
        ensures
            r@.map_values(|e: (Vec<u16>, Phrase)| (e.0@, e.1@)) == self.entries_spec().map_values(
                |e: (Seq<u8>, PhraseV)| (crate::codec::syls_of_bytes(e.0), e.1),
            ),
    {
        let merged = self.entries_iter();
        let ghost mm = pairs_view(merged@);
        let ghost target = self.entries_spec().map_values(
            |e: (Seq<u8>, PhraseV)| (crate::codec::syls_of_bytes(e.0), e.1),
        );
        let mut out: Vec<(Vec<u16>, Phrase)> = Vec::new();
        let mut i: usize = 0;
        while i < merged.len()
            invariant
                0 <= i <= merged@.len(),
                mm.len() == merged@.len(),
                out@.map_values(|e: (Vec<u16>, Phrase)| (e.0@, e.1@)) =~= target.take(i as int),
            decreases merged@.len() - i,
        {
            let e = &merged[i];
            let syls = crate::codec::phrase_from_bytes(e.0.as_slice());
            out.push((syls, clone_phrase(&e.1)));
            proof {
                let ghost me = mm[i as int];
                assert(target[i as int] == (crate::codec::syls_of_bytes(me.0), me.1));
                assert(out@.map_values(|e: (Vec<u16>, Phrase)| (e.0@, e.1@)) =~= target.take(
                    i + 1,
                ));
            }
            i = i + 1;
        }
        proof {
            assert(target.take(target.len() as int) =~= target);
        }
        out
    }
}

/// The position of the first phrase with text `t`, or -1 when none has it.
pub open spec fn find_text(s: Seq<PhraseV>, t: Seq<char>) -> int
    decreases s.len(),
{
    if s.len() == 0 {
        -1
    } else if s[0].phrase == t {
        0
    } else if find_text(s.drop_first(), t) < 0 {
        -1
    } else {
        find_text(s.drop_first(), t) + 1
    }
}

/// `find_text` names the first position holding the text, or -1.
pub proof fn lemma_find_text(s: Seq<PhraseV>, t: Seq<char>)
    ensures
        find_text(s, t) == -1 || 0 <= find_text(s, t) < s.len(),
        find_text(s, t) == -1 ==> forall|i: int| 0 <= i < s.len() ==> (#[trigger] s[i]).phrase != t,
        find_text(s, t) >= 0 ==> s[find_text(s, t)].phrase == t && forall|i: int|
            0 <= i < find_text(s, t) ==> (#[trigger] s[i]).phrase != t,
    decreases s.len(),
{
    if s.len() > 0 && s[0].phrase != t {
        let d = s.drop_first();
        assert(forall|j: int| 0 <= j < d.len() ==> (#[trigger] d[j]) == s[j + 1]);
        lemma_find_text(d, t);
        if find_text(d, t) == -1 {
            assert forall|i: int| 0 <= i < s.len() implies (#[trigger] s[i]).phrase != t by {
                if i > 0 {
                    assert(d[i - 1] == s[i]);
                    assert(d[i - 1].phrase != t);
                }
            }
        } else {
            let fd = find_text(d, t);
            assert(find_text(s, t) == fd + 1);
            assert(s[fd + 1] == d[fd]);
            assert forall|i: int| 0 <= i < fd + 1 implies (#[trigger] s[i]).phrase != t by {
                if i > 0 {
                    assert(d[i - 1] == s[i]);
                    assert(d[i - 1].phrase != t);
                }
            }
        }
    }
}

/// First-N deduplication: each phrase is appended at its first-seen
/// position; a repeated text keeps whichever variant compares higher by
/// frequency, then by last-used time.
pub open spec fn dedup_spec(s: Seq<PhraseV>) -> Seq<PhraseV>
    decreases s.len(),
{
    if s.len() == 0 {
        Seq::empty()
    } else {
        let prev = dedup_spec(s.drop_last());
        let p = s.last();
        let i = find_text(prev, p.phrase);
        if i >= 0 {
            if phrase_better(p, prev[i]) {
                prev.update(i, p)
            } else {
                prev
            }
        } else {
            prev.push(p)
        }
    }
}

impl<T: KVStore> KVDictionary<T> {
    /// The first `first` candidates for a syllable sequence: the exact-key
    /// entries deduplicated by text in first-seen order, truncated to at
    /// most `first` entries.
    #[verifier::loop_isolation(false)]
    pub fn lookup_first_n_phrases(&self, syllables: &[u16], first: usize) -> (r: Vec<Phrase>)
        ensures
            ({
                let d = dedup_spec(self.entries_for_spec(bytes_of_syls(syllables@)));
                phrases_view(r@) == if first as int <= d.len() {
                    d.take(first as int)
                } else {
                    d
                }
            }),
            r@.len() <= first,
            dedup_spec(self.entries_for_spec(bytes_of_syls(syllables@))).len() <= usize::MAX,
    {
        let syl = syllable_bytes(syllables);
        let pool = self.entries_iter_for(syl.as_slice());
        let ghost ee = phrases_view(pool@);
        let mut phrases: Vec<Phrase> = Vec::new();
        let mut k: usize = 0;
        proof {
            assert(ee.take(0) =~= Seq::<PhraseV>::empty());
            assert(phrases_view(phrases@) =~= dedup_spec(ee.take(0)));
        }
        while k < pool.len()
            invariant
                0 <= k <= pool@.len(),
                ee.len() == pool@.len(),
                phrases_view(phrases@) == dedup_spec(ee.take(k as int)),
            decreases pool@.len() - k,
        {
            proof {
                assert(ee.take(k + 1).drop_last() =~= ee.take(k as int));
                assert(ee.take(k + 1).last() == ee[k as int]);
                assert(ee[k as int] == pool@[k as int]@);
                lemma_find_text(phrases_view(phrases@), ee[k as int].phrase);
            }
            let p = &pool[k];
            let mut m: usize = 0;
            while m < phrases.len() && !(phrases[m].phrase == p.phrase)
                invariant
                    0 <= m <= phrases@.len(),
                    forall|j: int|
                        0 <= j < m ==> (#[trigger] phrases_view(phrases@)[j]).phrase != p@.phrase,
                decreases phrases@.len() - m,
            {
                proof {
                    assert(phrases_view(phrases@)[m as int] == phrases@[m as int]@);
                }
                m = m + 1;
            }
            let ghost pv = phrases_view(phrases@);
            let ghost ft = find_text(pv, ee[k as int].phrase);
            if m < phrases.len() {
                proof {
                    assert(pv[m as int] == phrases@[m as int]@);
                    assert(pv[m as int].phrase == p@.phrase);
                    assert(ft == m as int);
                }
                if phrase_better_exec(p, &phrases[m]) {
                    let _ = phrases.remove(m);
                    phrases.insert(m, clone_phrase(p));
                    proof {
                        assert(phrases_view(phrases@) =~= pv.update(m as int, ee[k as int]));
                        assert(phrases_view(phrases@) =~= dedup_spec(ee.take(k + 1)));
                    }
                } else {
                    proof {
                        assert(phrases_view(phrases@) =~= dedup_spec(ee.take(k + 1)));
                    }
                }
            } else {
                proof {
                    assert(ft == -1);
                }
                phrases.push(clone_phrase(p));
                proof {
                    assert(phrases_view(phrases@) =~= pv.push(ee[k as int]));
                    assert(phrases_view(phrases@) =~= dedup_spec(ee.take(k + 1)));
                }
            }
            k = k + 1;
        }
        proof {
            assert(ee.take(ee.len() as int) =~= ee);
        }
        let ghost d = dedup_spec(ee);
        proof {
            assert(d.len() == phrases@.len());
        }
        phrases.truncate(first);
        proof {
            if first as int <= d.len() {
                assert(phrases_view(phrases@) =~= d.take(first as int));
            }
        }
        phrases
    }
}

/// The query surface of a dictionary, as its consumers (the candidate
/// selection layer, administration tooling) see it.
pub trait Dictionary {
    /// The deduplicated candidate phrases for a syllable sequence, in
    /// first-seen order.
    spec fn candidates_spec(&self, syllables: Seq<u16>) -> Seq<PhraseV>;

    /// The whole merged dictionary, syllable keys decoded.
    spec fn dict_entries_spec(&self) -> Seq<(Seq<u16>, PhraseV)>;

    /// At most `first` candidates for a syllable sequence, in first-seen
    /// order.
    fn lookup_first_n_phrases(&self, syllables: &[u16], first: usize) -> (r: Vec<Phrase>)
        ensures
            ({
                let d = self.candidates_spec(syllables@);
                phrases_view(r@) == if first as int <= d.len() {
                    d.take(first as int)
                } else {
                    d
                }
            }),
            r@.len() <= first,
    ;

    /// Every candidate for a syllable sequence.
    fn lookup_phrase(&self, syllables: &[u16]) -> (r: Vec<Phrase>)
        ensures
            phrases_view(r@) == self.candidates_spec(syllables@),
    ;

    /// The whole merged dictionary.
    fn entries(&self) -> (r: Vec<(Vec<u16>, Phrase)>)
        ensures
            r@.map_values(|e: (Vec<u16>, Phrase)| (e.0@, e.1@)) == self.dict_entries_spec(),
    ;

    /// Static metadata about the dictionary.
    fn about(&self) -> DictionaryInfo;

    /// Reloads external state. A no-op at this layer.
    fn reopen(&mut self) -> (r: Result<(), DictionaryUpdateError>)
        ensures
            r is Ok,
    ;

    /// Persists pending edits. A no-op at this layer.
    fn flush(&mut self) -> (r: Result<(), DictionaryUpdateError>)
        ensures
            r is Ok,
    ;
}

impl<T: KVStore> Dictionary for KVDictionary<T> {
    open spec fn candidates_spec(&self, syllables: Seq<u16>) -> Seq<PhraseV> {
        dedup_spec(self.entries_for_spec(bytes_of_syls(syllables)))
    }

    open spec fn dict_entries_spec(&self) -> Seq<(Seq<u16>, PhraseV)> {
        self.entries_spec().map_values(
            |e: (Seq<u8>, PhraseV)| (crate::codec::syls_of_bytes(e.0), e.1),
        )
    }

    fn lookup_first_n_phrases(&self, syllables: &[u16], first: usize) -> (r: Vec<Phrase>) {
        KVDictionary::lookup_first_n_phrases(self, syllables, first)
    }

    fn lookup_phrase(&self, syllables: &[u16]) -> (r: Vec<Phrase>) {
        let r = KVDictionary::lookup_first_n_phrases(self, syllables, usize::MAX);
        proof {
            let d = self.candidates_spec(syllables@);
            if usize::MAX as int <= d.len() {
                assert(d.len() == usize::MAX as int);
                assert(d.take(usize::MAX as int) =~= d);
            }
        }
        r
    }

    fn entries(&self) -> (r: Vec<(Vec<u16>, Phrase)>) {
        KVDictionary::entries(self)
    }

    fn about(&self) -> DictionaryInfo {
        DictionaryInfo { name: String::new() }
    }

    fn reopen(&mut self) -> (r: Result<(), DictionaryUpdateError>) {
        Result::Ok(())
    }

    fn flush(&mut self) -> (r: Result<(), DictionaryUpdateError>) {
        Result::Ok(())
    }
}

/// An in-memory backing-store provider: a fixed list of raw pairs, held in
/// ascending phrase-key order.
pub struct MemStore {
    pairs: Vec<(Vec<u8>, Vec<u8>)>,
}

impl MemStore {
    /// Wraps a list of raw pairs whose decoded view is strictly ascending.
    pub fn new(pairs: Vec<(Vec<u8>, Vec<u8>)>) -> (r: MemStore)
        requires
            sorted_entries(decode_pairs_spec(pairs.deep_view())),
        ensures
            r.wf(),
            r.iter_spec() == pairs.deep_view(),
            forall|k: Seq<u8>| #![all_triggers] r.find_spec(k) == pairs_find(pairs.deep_view(), k),
    {
        MemStore { pairs }
    }
}

/// The raw values of the pairs whose key equals `k`, in pair order.
pub open spec fn pairs_find(s: Seq<(Seq<u8>, Seq<u8>)>, k: Seq<u8>) -> Seq<Seq<u8>>
    decreases s.len(),
{
    if s.len() == 0 {
        Seq::empty()
    } else {
        pairs_find(s.drop_last(), k) + if s.last().0 == k {
            seq![s.last().1]
        } else {
            Seq::empty()
        }
    }
}

impl KVStore for MemStore {
    closed spec fn find_spec(&self, key: Seq<u8>) -> Seq<Seq<u8>> {
        pairs_find(self.pairs.deep_view(), key)
    }

    closed spec fn iter_spec(&self) -> Seq<(Seq<u8>, Seq<u8>)> {
        self.pairs.deep_view()
    }

    closed spec fn wf(&self) -> bool {
        sorted_entries(decode_pairs_spec(self.pairs.deep_view()))
    }

    #[verifier::loop_isolation(false)]
    fn find(&self, key: &[u8]) -> (r: Vec<Vec<u8>>) {
        let ghost dv = self.pairs.deep_view();
        let mut out: Vec<Vec<u8>> = Vec::new();
        let mut i: usize = 0;
        proof {
            assert(dv.take(0) =~= Seq::<(Seq<u8>, Seq<u8>)>::empty());
            assert(out.deep_view() =~= pairs_find(dv.take(0), key@));
        }
        while i < self.pairs.len()
            invariant
                0 <= i <= self.pairs@.len(),
                dv.len() == self.pairs@.len(),
                out.deep_view() == pairs_find(dv.take(i as int), key@),
            decreases self.pairs@.len() - i,
        {
            proof {
                assert(dv.take(i + 1).drop_last() =~= dv.take(i as int));
                assert(dv.take(i + 1).last() == dv[i as int]);
                assert(dv[i as int] == (self.pairs@[i as int].0@, self.pairs@[i as int].1@));
            }
            let pair = &self.pairs[i];
            let same = match bytes_cmp(pair.0.as_slice(), key) {
                KeyOrder::Equal => true,
                _ => false,
            };
            if same {
                out.push(clone_bytes(&pair.1));
                proof {
                    assert(out.deep_view() =~= pairs_find(dv.take(i + 1), key@));
                }
            } else {
                proof {
                    assert(out.deep_view() =~= pairs_find(dv.take(i + 1), key@));
                }
            }
            i = i + 1;
        }
        proof {
            assert(dv.take(dv.len() as int) =~= dv);
        }
        out
    }

    #[verifier::loop_isolation(false)]
    fn iter(&self) -> (r: Vec<(Vec<u8>, Vec<u8>)>) {
        let ghost dv = self.pairs.deep_view();
        let mut out: Vec<(Vec<u8>, Vec<u8>)> = Vec::new();
        let mut i: usize = 0;
        proof {
            assert(out.deep_view() =~= dv.take(0));
        }
        while i < self.pairs.len()
            invariant
                0 <= i <= self.pairs@.len(),
                dv.len() == self.pairs@.len(),
                out.deep_view() == dv.take(i as int),
            decreases self.pairs@.len() - i,
        {
            proof {
                assert(dv[i as int] == (self.pairs@[i as int].0@, self.pairs@[i as int].1@));
            }
            let pair = &self.pairs[i];
            out.push((clone_bytes(&pair.0), clone_bytes(&pair.1)));
            proof {
                assert(out.deep_view() =~= dv.take(i + 1));
            }
            i = i + 1;
        }
        proof {
            assert(dv.take(dv.len() as int) =~= dv);
        }
        out
    }
}

/// Every survivor of the exact-key tombstone filter passes the filter and
/// comes from the input; every input element that passes is kept.
proof fn lemma_filter_tomb_props(g: Seq<KeyV>, syl: Seq<u8>, s: Seq<PhraseV>)
    ensures
        forall|i: int|
            0 <= i < filter_tomb(g, syl, s).len() ==> !grave_has(
                g,
                KeyV { syllables: syl, text: (#[trigger] filter_tomb(g, syl, s)[i]).phrase },
            ),
        forall|i: int|
            0 <= i < filter_tomb(g, syl, s).len() ==> exists|j: int|
                0 <= j < s.len() && s[j] == #[trigger] filter_tomb(g, syl, s)[i],
        forall|j: int|
            0 <= j < s.len() && !grave_has(
                g,
                KeyV { syllables: syl, text: (#[trigger] s[j]).phrase },
            ) ==> exists|i: int| 0 <= i < filter_tomb(g, syl, s).len() && filter_tomb(g, syl, s)[i]
                == s[j],
    decreases s.len(),
{
    let r = filter_tomb(g, syl, s);
    if s.len() > 0 {
        let d = s.drop_last();
        lemma_filter_tomb_props(g, syl, d);
        let rd = filter_tomb(g, syl, d);
        assert(forall|j: int| 0 <= j < d.len() ==> (#[trigger] d[j]) == s[j]);
        assert forall|j: int|
            0 <= j < s.len() && !grave_has(
                g,
                KeyV { syllables: syl, text: (#[trigger] s[j]).phrase },
            ) implies exists|i: int| 0 <= i < r.len() && r[i] == s[j] by {
            if j < s.len() - 1 {
                let i = choose|i: int| 0 <= i < rd.len() && rd[i] == d[j];
                assert(r[i] == s[j]);
            } else {
                assert(r[r.len() - 1] == s[j]);
            }
        }
    }
}

/// Every survivor of the full-iteration tombstone filter passes the filter
/// and comes from the input.
proof fn lemma_filter_tomb_pairs_props(g: Seq<KeyV>, s: Seq<(Seq<u8>, PhraseV)>)
    ensures
        forall|i: int|
            0 <= i < filter_tomb_pairs(g, s).len() ==> !grave_has(
                g,
                entry_key(#[trigger] filter_tomb_pairs(g, s)[i]),
            ),
        forall|i: int|
            0 <= i < filter_tomb_pairs(g, s).len() ==> exists|j: int|
                0 <= j < s.len() && s[j] == #[trigger] filter_tomb_pairs(g, s)[i],
    decreases s.len(),
{
    if s.len() > 0 {
        let d = s.drop_last();
        lemma_filter_tomb_pairs_props(g, d);
        let rd = filter_tomb_pairs(g, d);
        let r = filter_tomb_pairs(g, s);
        assert(forall|j: int| 0 <= j < d.len() ==> (#[trigger] d[j]) == s[j]);
        assert forall|i: int|
            0 <= i < r.len() implies exists|j: int| 0 <= j < s.len() && s[j] == #[trigger] r[i] by {
            if i < rd.len() {
                assert(r[i] == rd[i]);
                let j = choose|j: int| 0 <= j < d.len() && d[j] == rd[i];
                assert(s[j] == r[i]);
            } else {
                assert(r[i] == s[s.len() - 1]);
            }
        }
    }
}

/// Tombstone suppression: a tombstoned phrase key never surfaces, neither
/// from an exact-key lookup nor from full iteration, whatever the backing
/// store or the overlay hold for it.
pub proof fn lemma_tombstone_suppression<T: KVStore>(
    d: KVDictionary<T>,
    syl: Seq<u8>,
    text: Seq<char>,
)
    requires
        grave_has(d.grave(), KeyV { syllables: syl, text }),
    ensures
        forall|i: int|
            0 <= i < d.entries_for_spec(syl).len() ==> (#[trigger] d.entries_for_spec(syl)[i]).phrase
                != text,
        forall|i: int|
            0 <= i < d.entries_spec().len() ==> !((#[trigger] d.entries_spec()[i]).0 == syl
                && d.entries_spec()[i].1.phrase == text),
{
    let pool = decode_values_spec(d.find_view(syl)) + overlay_range_spec(d.overlay(), syl);
    lemma_filter_tomb_props(d.grave(), syl, pool);
    assert forall|i: int|
        0 <= i < d.entries_for_spec(syl).len() implies (#[trigger] d.entries_for_spec(syl)[i]).phrase
        != text by {
        if d.entries_for_spec(syl)[i].phrase == text {
            assert(!grave_has(d.grave(), KeyV { syllables: syl, text }));
        }
    }
    let merged = merge_spec(d.store_entries_spec(), d.overlay_entries_spec());
    lemma_filter_tomb_pairs_props(d.grave(), merged);
    assert forall|i: int|
        0 <= i < d.entries_spec().len() implies !((#[trigger] d.entries_spec()[i]).0 == syl
        && d.entries_spec()[i].1.phrase == text) by {
        if d.entries_spec()[i].0 == syl && d.entries_spec()[i].1.phrase == text {
            assert(entry_key(d.entries_spec()[i]) =~= KeyV { syllables: syl, text });
            assert(!grave_has(d.grave(), KeyV { syllables: syl, text }));
        }
    }
}

/// The merge of two strictly ascending streams is strictly ascending, and
/// every merged entry comes from one of the streams.
proof fn lemma_merge_sorted(a: Seq<(Seq<u8>, PhraseV)>, b: Seq<(Seq<u8>, PhraseV)>)
    requires
        sorted_entries(a),
        sorted_entries(b),
    ensures
        sorted_entries(merge_spec(a, b)),
        forall|i: int|
            0 <= i < merge_spec(a, b).len() ==> (exists|j: int|
                0 <= j < a.len() && a[j] == #[trigger] merge_spec(a, b)[i]) || (exists|j: int|
                0 <= j < b.len() && b[j] == merge_spec(a, b)[i]),
    decreases a.len() + b.len(),
{
    let r = merge_spec(a, b);
    if a.len() == 0 || b.len() == 0 {
    } else {
        let ka = entry_key(a[0]);
        let kb = entry_key(b[0]);
        let ta = a.drop_first();
        let tb = b.drop_first();
        assert(forall|j: int| 0 <= j < ta.len() ==> (#[trigger] ta[j]) == a[j + 1]);
        assert(forall|j: int| 0 <= j < tb.len() ==> (#[trigger] tb[j]) == b[j + 1]);
        crate::order::lemma_key_lt_trichotomy(ka, kb);
        if key_lt(ka, kb) {
            lemma_merge_sorted(ta, b);
            let rt = merge_spec(ta, b);
            assert(r == seq![a[0]] + rt);
            assert forall|i: int, j: int| 0 <= i < j < r.len() implies key_lt(
                entry_key(#[trigger] r[i]),
                entry_key(#[trigger] r[j]),
            ) by {
                if i == 0 {
                    assert(r[j] == rt[j - 1]);
                    if exists|m: int| 0 <= m < ta.len() && ta[m] == rt[j - 1] {
                        let m = choose|m: int| 0 <= m < ta.len() && ta[m] == rt[j - 1];
                        assert(key_lt(entry_key(a[0]), entry_key(a[m + 1])));
                    } else {
                        let m = choose|m: int| 0 <= m < b.len() && b[m] == rt[j - 1];
                        if m > 0 {
                            crate::order::lemma_key_lt_trans(ka, kb, entry_key(b[m]));
                        }
                    }
                } else {
                    assert(r[i] == rt[i - 1] && r[j] == rt[j - 1]);
                }
            }
            assert forall|i: int|
                0 <= i < r.len() implies (exists|j: int|
                0 <= j < a.len() && a[j] == #[trigger] r[i]) || (exists|j: int|
                0 <= j < b.len() && b[j] == r[i]) by {
                if i > 0 {
                    assert(r[i] == rt[i - 1]);
                    if exists|m: int| 0 <= m < ta.len() && ta[m] == rt[i - 1] {
                        let m = choose|m: int| 0 <= m < ta.len() && ta[m] == rt[i - 1];
                        assert(a[m + 1] == r[i]);
                    }
                } else {
                    assert(a[0] == r[0]);
                }
            }
        } else if key_lt(kb, ka) {
            lemma_merge_sorted(a, tb);
            let rt = merge_spec(a, tb);
            assert(r == seq![b[0]] + rt);
            assert forall|i: int, j: int| 0 <= i < j < r.len() implies key_lt(
                entry_key(#[trigger] r[i]),
                entry_key(#[trigger] r[j]),
            ) by {
                if i == 0 {
                    assert(r[j] == rt[j - 1]);
                    if exists|m: int| 0 <= m < tb.len() && tb[m] == rt[j - 1] {
                        let m = choose|m: int| 0 <= m < tb.len() && tb[m] == rt[j - 1];
                        assert(key_lt(entry_key(b[0]), entry_key(b[m + 1])));
                    } else {
                        let m = choose|m: int| 0 <= m < a.len() && a[m] == rt[j - 1];
                        if m > 0 {
                            crate::order::lemma_key_lt_trans(kb, ka, entry_key(a[m]));
                        }
                    }
                } else {
                    assert(r[i] == rt[i - 1] && r[j] == rt[j - 1]);
                }
            }
            assert forall|i: int|
                0 <= i < r.len() implies (exists|j: int|
                0 <= j < a.len() && a[j] == #[trigger] r[i]) || (exists|j: int|
                0 <= j < b.len() && b[j] == r[i]) by {
                if i > 0 {
                    assert(r[i] == rt[i - 1]);
                    if exists|m: int| 0 <= m < tb.len() && tb[m] == rt[i - 1] {
                        let m = choose|m: int| 0 <= m < tb.len() && tb[m] == rt[i - 1];
                        assert(b[m + 1] == r[i]);
                    }
                } else {
                    assert(b[0] == r[0]);
                }
            }
        } else {
            assert(ka == kb);
            let h = if a[0].1.freq <= b[0].1.freq {
                b[0]
            } else {
                a[0]
            };
            lemma_merge_sorted(ta, tb);
            let rt = merge_spec(ta, tb);
            assert(r == seq![h] + rt);
            assert(entry_key(h) == ka);
            assert forall|i: int, j: int| 0 <= i < j < r.len() implies key_lt(
                entry_key(#[trigger] r[i]),
                entry_key(#[trigger] r[j]),
            ) by {
                if i == 0 {
                    assert(r[j] == rt[j - 1]);
                    if exists|m: int| 0 <= m < ta.len() && ta[m] == rt[j - 1] {
                        let m = choose|m: int| 0 <= m < ta.len() && ta[m] == rt[j - 1];
                        assert(key_lt(entry_key(a[0]), entry_key(a[m + 1])));
                    } else {
                        let m = choose|m: int| 0 <= m < tb.len() && tb[m] == rt[j - 1];
                        assert(key_lt(entry_key(b[0]), entry_key(b[m + 1])));
                    }
                } else {
                    assert(r[i] == rt[i - 1] && r[j] == rt[j - 1]);
                }
            }
            assert forall|i: int|
                0 <= i < r.len() implies (exists|j: int|
                0 <= j < a.len() && a[j] == #[trigger] r[i]) || (exists|j: int|
                0 <= j < b.len() && b[j] == r[i]) by {
                if i > 0 {
                    assert(r[i] == rt[i - 1]);
                    if exists|m: int| 0 <= m < ta.len() && ta[m] == rt[i - 1] {
                        let m = choose|m: int| 0 <= m < ta.len() && ta[m] == rt[i - 1];
                        assert(a[m + 1] == r[i]);
                    } else {
                        let m = choose|m: int| 0 <= m < tb.len() && tb[m] == rt[i - 1];
                        assert(b[m + 1] == r[i]);
                    }
                }
            }
        }
    }
}

/// The tombstone filter keeps a strictly ascending stream strictly
/// ascending.
proof fn lemma_filter_tomb_pairs_sorted(g: Seq<KeyV>, s: Seq<(Seq<u8>, PhraseV)>)
    requires
        sorted_entries(s),
    ensures
        sorted_entries(filter_tomb_pairs(g, s)),
    decreases s.len(),
{
    if s.len() > 0 {
        let d = s.drop_last();
        assert(forall|j: int| 0 <= j < d.len() ==> (#[trigger] d[j]) == s[j]);
        lemma_filter_tomb_pairs_sorted(g, d);
        lemma_filter_tomb_pairs_props(g, d);
        let rd = filter_tomb_pairs(g, d);
        let r = filter_tomb_pairs(g, s);
        assert forall|i: int, j: int| 0 <= i < j < r.len() implies key_lt(
            entry_key(#[trigger] r[i]),
            entry_key(#[trigger] r[j]),
        ) by {
            if j < rd.len() {
                assert(r[i] == rd[i] && r[j] == rd[j]);
            } else {
                assert(r[j] == s[s.len() - 1]);
                assert(r[i] == rd[i]);
                let m = choose|m: int| 0 <= m < d.len() && d[m] == rd[i];
                assert(key_lt(entry_key(s[m]), entry_key(s[s.len() - 1])));
            }
        }
    }
}

/// Sort order: with a sorted overlay and a backing store that honours the
/// ordering contract, full iteration yields phrase keys in strictly
/// ascending order, with no key repeated.
pub proof fn lemma_entries_sorted<T: KVStore>(d: KVDictionary<T>)
    requires
        d.wf(),
        sorted_entries(d.store_entries_spec()),
    ensures
        sorted_entries(d.entries_spec()),
        forall|i: int, j: int|
            0 <= i < j < d.entries_spec().len() ==> entry_key(#[trigger] d.entries_spec()[i])
                != entry_key(#[trigger] d.entries_spec()[j]),
{
    let ov = d.overlay_entries_spec();
    assert forall|i: int, j: int| 0 <= i < j < ov.len() implies key_lt(
        entry_key(#[trigger] ov[i]),
        entry_key(#[trigger] ov[j]),
    ) by {
        assert(ov[i] == (d.overlay()[i].key.syllables, overlay_phrase(d.overlay()[i])));
        assert(ov[j] == (d.overlay()[j].key.syllables, overlay_phrase(d.overlay()[j])));
        assert(entry_key(ov[i]) =~= d.overlay()[i].key);
        assert(entry_key(ov[j]) =~= d.overlay()[j].key);
        assert(key_lt(d.overlay()[i].key, d.overlay()[j].key));
    }
    lemma_merge_sorted(d.store_entries_spec(), ov);
    lemma_filter_tomb_pairs_sorted(d.grave(), merge_spec(d.store_entries_spec(), ov));
    assert forall|i: int, j: int|
        0 <= i < j < d.entries_spec().len() implies entry_key(#[trigger] d.entries_spec()[i])
        != entry_key(#[trigger] d.entries_spec()[j]) by {
        crate::order::lemma_key_lt_trichotomy(
            entry_key(d.entries_spec()[i]),
            entry_key(d.entries_spec()[j]),
        );
    }
}

} // verus!
