//! Ordering of phrase keys.
//!
//! A phrase key is a pair of the syllable key bytes and the phrase text.
//! Keys are ordered lexicographically: syllable bytes first (bytewise),
//! phrase text second (by Unicode scalar value).

use vstd::prelude::*;
use vstd::string::StrSliceExecFns;
use vstd::utf8::char_u32_cast;

verus! {

/// Result of a three-way comparison.
#[derive(Clone, Copy, PartialEq, Eq, Structural)]
pub enum KeyOrder {
    Less,
    Equal,
    Greater,
}

/// The mathematical phrase key: syllable key bytes and phrase text.
#[verifier::ext_equal]
pub struct KeyV {
    pub syllables: Seq<u8>,
    pub text: Seq<char>,
}

/// Lexicographic comparison of byte strings, decided from position `i` on.
pub open spec fn bytes_lt_from(a: Seq<u8>, b: Seq<u8>, i: int) -> bool
    recommends
        0 <= i,
    decreases a.len() - i,
{
    if i >= a.len() {
        b.len() > i
    } else if i >= b.len() {
        false
    } else if a[i] != b[i] {
        a[i] < b[i]
    } else {
        bytes_lt_from(a, b, i + 1)
    }
}

/// Strict lexicographic order on byte strings.
pub open spec fn bytes_lt(a: Seq<u8>, b: Seq<u8>) -> bool {
    bytes_lt_from(a, b, 0)
}

/// Lexicographic comparison of texts, decided from position `i` on.
pub open spec fn chars_lt_from(a: Seq<char>, b: Seq<char>, i: int) -> bool
    recommends
        0 <= i,
    decreases a.len() - i,
{
    if i >= a.len() {
        b.len() > i
    } else if i >= b.len() {
        false
    } else if a[i] != b[i] {
        (a[i] as u32) < (b[i] as u32)
    } else {
        chars_lt_from(a, b, i + 1)
    }
}

/// Strict lexicographic order on texts, by Unicode scalar value.
pub open spec fn chars_lt(a: Seq<char>, b: Seq<char>) -> bool {
    chars_lt_from(a, b, 0)
}

/// Strict order on phrase keys: syllable bytes first, text second.
pub open spec fn key_lt(a: KeyV, b: KeyV) -> bool {
    bytes_lt(a.syllables, b.syllables) || (a.syllables == b.syllables && chars_lt(a.text, b.text))
}

proof fn lemma_bytes_lt_from_trichotomy(a: Seq<u8>, b: Seq<u8>, i: int)
    requires
        0 <= i,
        i <= a.len(),
        i <= b.len(),
    ensures
        bytes_lt_from(a, b, i) || bytes_lt_from(b, a, i) || (a.len() == b.len() && forall|j: int|
            i <= j < a.len() ==> a[j] == b[j]),
        !(bytes_lt_from(a, b, i) && bytes_lt_from(b, a, i)),
    decreases a.len() - i,
{
    if i < a.len() && i < b.len() && a[i] == b[i] {
        lemma_bytes_lt_from_trichotomy(a, b, i + 1);
    }
}

proof fn lemma_bytes_lt_from_irrefl(a: Seq<u8>, i: int)
    requires
        0 <= i,
    ensures
        !bytes_lt_from(a, a, i),
    decreases a.len() - i,
{
    if i < a.len() {
        lemma_bytes_lt_from_irrefl(a, i + 1);
    }
}

/// Of two byte strings, exactly one of `a < b`, `a == b`, `b < a` holds.
pub proof fn lemma_bytes_lt_trichotomy(a: Seq<u8>, b: Seq<u8>)
    ensures
        bytes_lt(a, b) || bytes_lt(b, a) || a == b,
        !(bytes_lt(a, b) && bytes_lt(b, a)),
        bytes_lt(a, b) ==> a != b,
        bytes_lt(b, a) ==> a != b,
{
    lemma_bytes_lt_from_trichotomy(a, b, 0);
    if !bytes_lt(a, b) && !bytes_lt(b, a) {
        assert(a =~= b);
    }
    if a == b {
        lemma_bytes_lt_from_irrefl(a, 0);
    }
}

proof fn lemma_bytes_lt_from_trans(a: Seq<u8>, b: Seq<u8>, c: Seq<u8>, i: int)
    requires
        0 <= i,
        bytes_lt_from(a, b, i),
        bytes_lt_from(b, c, i),
    ensures
        bytes_lt_from(a, c, i),
    decreases a.len() - i,
{
    if i < a.len() && i < b.len() && i < c.len() && a[i] == b[i] && b[i] == c[i] {
        lemma_bytes_lt_from_trans(a, b, c, i + 1);
    }
}

/// Byte-string order is transitive.
pub proof fn lemma_bytes_lt_trans(a: Seq<u8>, b: Seq<u8>, c: Seq<u8>)
    requires
        bytes_lt(a, b),
        bytes_lt(b, c),
    ensures
        bytes_lt(a, c),
{
    lemma_bytes_lt_from_trans(a, b, c, 0);
}

proof fn lemma_chars_lt_from_trichotomy(a: Seq<char>, b: Seq<char>, i: int)
    requires
        0 <= i,
        i <= a.len(),
        i <= b.len(),
    ensures
        chars_lt_from(a, b, i) || chars_lt_from(b, a, i) || (a.len() == b.len() && forall|j: int|
            i <= j < a.len() ==> a[j] == b[j]),
        !(chars_lt_from(a, b, i) && chars_lt_from(b, a, i)),
    decreases a.len() - i,
{
    if i < a.len() && i < b.len() {
        if a[i] == b[i] {
            lemma_chars_lt_from_trichotomy(a, b, i + 1);
        } else {
            if (a[i] as u32) == (b[i] as u32) {
                char_u32_cast(a[i], a[i] as u32);
                char_u32_cast(b[i], b[i] as u32);
            }
        }
    }
}

proof fn lemma_chars_lt_from_irrefl(a: Seq<char>, i: int)
    requires
        0 <= i,
    ensures
        !chars_lt_from(a, a, i),
    decreases a.len() - i,
{
    if i < a.len() {
        lemma_chars_lt_from_irrefl(a, i + 1);
    }
}

/// Of two texts, exactly one of `a < b`, `a == b`, `b < a` holds.
pub proof fn lemma_chars_lt_trichotomy(a: Seq<char>, b: Seq<char>)
    ensures
        chars_lt(a, b) || chars_lt(b, a) || a == b,
        !(chars_lt(a, b) && chars_lt(b, a)),
        chars_lt(a, b) ==> a != b,
        chars_lt(b, a) ==> a != b,
{
    lemma_chars_lt_from_trichotomy(a, b, 0);
    if !chars_lt(a, b) && !chars_lt(b, a) {
        assert(a =~= b);
    }
    if a == b {
        lemma_chars_lt_from_irrefl(a, 0);
    }
}

proof fn lemma_chars_lt_from_trans(a: Seq<char>, b: Seq<char>, c: Seq<char>, i: int)
    requires
        0 <= i,
        chars_lt_from(a, b, i),
        chars_lt_from(b, c, i),
    ensures
        chars_lt_from(a, c, i),
    decreases a.len() - i,
{
    if i < a.len() && i < b.len() && i < c.len() && a[i] == b[i] && b[i] == c[i] {
        lemma_chars_lt_from_trans(a, b, c, i + 1);
    } else if i < a.len() && i < b.len() && i < c.len() {
        if a[i] != b[i] && b[i] != c[i] && a[i] == c[i] {
            assert(!((a[i] as u32) < (b[i] as u32) && (b[i] as u32) < (a[i] as u32)));
        }
    }
}

/// Text order is transitive.
pub proof fn lemma_chars_lt_trans(a: Seq<char>, b: Seq<char>, c: Seq<char>)
    requires
        chars_lt(a, b),
        chars_lt(b, c),
    ensures
        chars_lt(a, c),
{
    lemma_chars_lt_from_trans(a, b, c, 0);
}

/// Of two phrase keys, exactly one of `a < b`, `a == b`, `b < a` holds.
pub proof fn lemma_key_lt_trichotomy(a: KeyV, b: KeyV)
    ensures
        key_lt(a, b) || key_lt(b, a) || a == b,
        !(key_lt(a, b) && key_lt(b, a)),
        key_lt(a, b) ==> a != b,
        key_lt(b, a) ==> a != b,
{
    lemma_bytes_lt_trichotomy(a.syllables, b.syllables);
    lemma_chars_lt_trichotomy(a.text, b.text);
    if a.syllables == b.syllables && a.text == b.text {
        assert(a =~= b);
    }
}

/// Phrase-key order is transitive.
pub proof fn lemma_key_lt_trans(a: KeyV, b: KeyV, c: KeyV)
    requires
        key_lt(a, b),
        key_lt(b, c),
    ensures
        key_lt(a, c),
{
    lemma_bytes_lt_trichotomy(a.syllables, b.syllables);
    lemma_bytes_lt_trichotomy(b.syllables, c.syllables);
    if bytes_lt(a.syllables, b.syllables) && bytes_lt(b.syllables, c.syllables) {
        lemma_bytes_lt_trans(a.syllables, b.syllables, c.syllables);
    } else if a.syllables == b.syllables && b.syllables == c.syllables {
        lemma_chars_lt_trans(a.text, b.text, c.text);
    }
}

proof fn lemma_bytes_lt_prefix(a: Seq<u8>, b: Seq<u8>, i: int)
    requires
        0 <= i <= a.len(),
        i <= b.len(),
        forall|j: int| 0 <= j < i ==> a[j] == b[j],
    ensures
        bytes_lt(a, b) == bytes_lt_from(a, b, i),
    decreases i,
{
    if i > 0 {
        lemma_bytes_lt_prefix(a, b, i - 1);
    }
}

proof fn lemma_chars_lt_prefix(a: Seq<char>, b: Seq<char>, i: int)
    requires
        0 <= i <= a.len(),
        i <= b.len(),
        forall|j: int| 0 <= j < i ==> a[j] == b[j],
    ensures
        chars_lt(a, b) == chars_lt_from(a, b, i),
    decreases i,
{
    if i > 0 {
        lemma_chars_lt_prefix(a, b, i - 1);
    }
}

/// Three-way bytewise comparison of two byte strings.
pub fn bytes_cmp(a: &[u8], b: &[u8]) -> (r: KeyOrder)
    ensures
        (r is Less) == bytes_lt(a@, b@),
        (r is Greater) == bytes_lt(b@, a@),
        (r is Equal) == (a@ == b@),
{
    let alen = a.len();
    let blen = b.len();
    let mut i: usize = 0;
    while i < alen && i < blen
        invariant
            0 <= i <= alen,
            i <= blen,
            alen == a@.len(),
            blen == b@.len(),
            forall|j: int| 0 <= j < i ==> a@[j] == b@[j],
        decreases alen - i,
    {
        let x = *vstd::slice::slice_index_get(a, i);
        let y = *vstd::slice::slice_index_get(b, i);
        if x != y {
            proof {
                lemma_bytes_lt_prefix(a@, b@, i as int);
                lemma_bytes_lt_prefix(b@, a@, i as int);
                lemma_bytes_lt_trichotomy(a@, b@);
            }
            if x < y {
                return KeyOrder::Less;
            } else {
                return KeyOrder::Greater;
            }
        }
        i = i + 1;
    }
    proof {
        lemma_bytes_lt_prefix(a@, b@, i as int);
        lemma_bytes_lt_prefix(b@, a@, i as int);
        lemma_bytes_lt_trichotomy(a@, b@);
        if alen == blen {
            assert(a@ =~= b@);
        }
    }
    if alen == blen {
        KeyOrder::Equal
    } else if alen < blen {
        KeyOrder::Less
    } else {
        KeyOrder::Greater
    }
}

/// Three-way comparison of two texts by Unicode scalar value.
pub fn str_cmp(a: &str, b: &str) -> (r: KeyOrder)
    ensures
        (r is Less) == chars_lt(a@, b@),
        (r is Greater) == chars_lt(b@, a@),
        (r is Equal) == (a@ == b@),
{
    let alen = a.unicode_len();
    let blen = b.unicode_len();
    let mut i: usize = 0;
    while i < alen && i < blen
        invariant
            0 <= i <= alen,
            i <= blen,
            alen == a@.len(),
            blen == b@.len(),
            forall|j: int| 0 <= j < i ==> a@[j] == b@[j],
        decreases alen - i,
    {
        let x = a.get_char(i);
        let y = b.get_char(i);
        if x != y {
            proof {
                lemma_chars_lt_prefix(a@, b@, i as int);
                lemma_chars_lt_prefix(b@, a@, i as int);
                lemma_chars_lt_trichotomy(a@, b@);
            }
            if (x as u32) < (y as u32) {
                return KeyOrder::Less;
            } else {
                return KeyOrder::Greater;
            }
        }
        i = i + 1;
    }
    proof {
        lemma_chars_lt_prefix(a@, b@, i as int);
        lemma_chars_lt_prefix(b@, a@, i as int);
        lemma_chars_lt_trichotomy(a@, b@);
        if alen == blen {
            assert(a@ =~= b@);
        }
    }
    if alen == blen {
        KeyOrder::Equal
    } else if alen < blen {
        KeyOrder::Less
    } else {
        KeyOrder::Greater
    }
}

/// Three-way comparison of two phrase keys, syllable bytes first, text second.
pub fn key_cmp(a_syl: &[u8], a_text: &str, b_syl: &[u8], b_text: &str) -> (r: KeyOrder)
    ensures
        (r is Less) == key_lt(
            KeyV { syllables: a_syl@, text: a_text@ },
            KeyV { syllables: b_syl@, text: b_text@ },
        ),
        (r is Greater) == key_lt(
            KeyV { syllables: b_syl@, text: b_text@ },
            KeyV { syllables: a_syl@, text: a_text@ },
        ),
        (r is Equal) == (KeyV { syllables: a_syl@, text: a_text@ } == KeyV {
            syllables: b_syl@,
            text: b_text@,
        }),
{
    let ghost ka = KeyV { syllables: a_syl@, text: a_text@ };
    let ghost kb = KeyV { syllables: b_syl@, text: b_text@ };
    proof {
        lemma_key_lt_trichotomy(ka, kb);
    }
    match bytes_cmp(a_syl, b_syl) {
        KeyOrder::Less => KeyOrder::Less,
        KeyOrder::Greater => KeyOrder::Greater,
        KeyOrder::Equal => {
            let r = str_cmp(a_text, b_text);
            proof {
                if a_text@ == b_text@ {
                    assert(ka =~= kb);
                }
            }
            r
        },
    }
}

} // verus!
