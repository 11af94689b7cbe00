//! Bit signatures of words: a `HashBox` sets a few bits for every word added
//! to it, and a word can be in the box only if all of its bits are set.

use vstd::prelude::*;
use vstd::utf8::*;

use crate::index::fprocessing::{eval, eval_safe, eval_spec, try_eval};
use crate::index::lexem::Lexem;
use crate::table::{key_index, lemma_key_index, lemma_lookup_put, lookup, put};
use crate::unicode::chars_of;

verus! {

/// What a `HashBox` holds: where its words start in the page text, and the
/// three bit sets that the words added to it have filled.
pub struct HashBoxView {
    pub ptr: u64,
    pub words: u128,
    pub starts: u128,
    pub ends: u128,
}

#[derive(Clone, Copy, Debug)]
pub struct HashBox {
    mem_pointer: u64,
    words_hash: u128,
    starts_with_hash: u128,
    ends_with_hash: u128,
}

impl View for HashBox {
    type V = HashBoxView;

    closed spec fn view(&self) -> HashBoxView {
        HashBoxView {
            ptr: self.mem_pointer,
            words: self.words_hash,
            starts: self.starts_with_hash,
            ends: self.ends_with_hash,
        }
    }
}

/// The `u128` with only bit `k` set.
pub open spec fn bit(k: u32) -> u128 {
    1u128 << k
}

/// The exclusive or of the code points of the characters of `s`.
pub open spec fn xor_of_chars(s: Seq<char>) -> u32
    decreases s.len(),
{
    if s.len() == 0 {
        0
    } else {
        xor_of_chars(s.drop_last()) ^ (s.last() as u32)
    }
}

/// The UTF-8 length of `s` in bytes.
pub open spec fn byte_len(s: Seq<char>) -> nat {
    encode_utf8(s).len()
}

/// The signature of a whole word: bits chosen by its byte length, by the
/// exclusive or of its code points, by its first two bytes and by its last byte.
pub open spec fn word_hash(s: Seq<char>) -> u128 {
    let b = encode_utf8(s);
    bit((96 + b.len() % 16) as u32) | bit((112 + xor_of_chars(s) % 16) as u32) | bit(
        (64 + (b[0] * 17) % 32) as u32,
    ) | bit(((b[1] * 19) % 32) as u32) | bit((32 + b[b.len() - 1] % 32) as u32)
}

/// The signature of the first four bytes of a word: one bit per byte, in four
/// 32-bit quarters.
pub open spec fn leading_bytes_hash(s: Seq<char>) -> u128 {
    let b = encode_utf8(s);
    bit((96 + b[0] % 32) as u32) | bit((64 + b[1] % 32) as u32) | bit((32 + b[2] % 32) as u32)
        | bit((b[3] % 32) as u32)
}

/// Every bit of `h` is set in `field`.
pub open spec fn covers(field: u128, h: u128) -> bool {
    field & h == h
}

/// A fresh box at `ptr`: no bit set.
pub open spec fn empty_box(ptr: u64) -> HashBoxView {
    HashBoxView { ptr, words: 0, starts: 0, ends: 0 }
}

/// The box `b` after the word `s` is added to it.
pub open spec fn with_word(b: HashBoxView, s: Seq<char>) -> HashBoxView {
    HashBoxView {
        ptr: b.ptr,
        words: b.words | word_hash(s),
        starts: b.starts | leading_bytes_hash(s),
        ends: b.ends | leading_bytes_hash(s),
    }
}

/// The box may hold the word `s`: all three of its signatures are covered.
pub open spec fn may_hold_word(b: HashBoxView, s: Seq<char>) -> bool {
    &&& covers(b.words, word_hash(s))
    &&& covers(b.starts, leading_bytes_hash(s))
    &&& covers(b.ends, leading_bytes_hash(s))
}

/// The check of a suffix filter: the leading-bytes signature of `s` is
/// covered by the box's third bit set.
pub open spec fn may_end_with(b: HashBoxView, s: Seq<char>) -> bool {
    covers(b.ends, leading_bytes_hash(s))
}

/// The check of a prefix filter: it tests the same bit set and the same
/// signature as the check of a suffix filter.
pub open spec fn may_start_with(b: HashBoxView, s: Seq<char>) -> bool {
    covers(b.ends, leading_bytes_hash(s))
}


/// A word added to a box is held by it, and passes the box's prefix and
/// suffix checks: a box has no false negatives.
pub proof fn lemma_added_word_is_held(b: HashBoxView, s: Seq<char>)
    ensures
        may_hold_word(with_word(b, s), s),
        may_end_with(with_word(b, s), s),
        may_start_with(with_word(b, s), s),
{
    let w = word_hash(s);
    let l = leading_bytes_hash(s);
    let (bw, bs, be) = (b.words, b.starts, b.ends);
    assert((bw | w) & w == w) by (bit_vector);
    assert((bs | l) & l == l) by (bit_vector);
    assert((be | l) & l == l) by (bit_vector);
}

/// Adding a word never makes a box lose a word it held or a check it passed.
pub proof fn lemma_adding_keeps_held(b: HashBoxView, s: Seq<char>, t: Seq<char>)
    ensures
        may_hold_word(b, t) ==> may_hold_word(with_word(b, s), t),
        may_end_with(b, t) ==> may_end_with(with_word(b, s), t),
        may_start_with(b, t) ==> may_start_with(with_word(b, s), t),
{
    let (ws, ls) = (word_hash(s), leading_bytes_hash(s));
    let (wt, lt) = (word_hash(t), leading_bytes_hash(t));
    let (bw, bs, be) = (b.words, b.starts, b.ends);
    assert(bw & wt == wt ==> (bw | ws) & wt == wt) by (bit_vector);
    assert(bs & lt == lt ==> (bs | ls) & lt == lt) by (bit_vector);
    assert(be & lt == lt ==> (be | ls) & lt == lt) by (bit_vector);
}

/// The order in which words are added to a box does not matter.
pub proof fn lemma_adding_commutes(b: HashBoxView, s: Seq<char>, t: Seq<char>)
    ensures
        with_word(with_word(b, s), t) == with_word(with_word(b, t), s),
{
    let (ws, ls) = (word_hash(s), leading_bytes_hash(s));
    let (wt, lt) = (word_hash(t), leading_bytes_hash(t));
    let (bw, bs, be) = (b.words, b.starts, b.ends);
    assert((bw | ws) | wt == (bw | wt) | ws) by (bit_vector);
    assert((bs | ls) | lt == (bs | lt) | ls) by (bit_vector);
    assert((be | ls) | lt == (be | lt) | ls) by (bit_vector);
}

/// Adding a word a second time changes nothing.
pub proof fn lemma_adding_twice(b: HashBoxView, s: Seq<char>)
    ensures
        with_word(with_word(b, s), s) == with_word(b, s),
{
    let (w, l) = (word_hash(s), leading_bytes_hash(s));
    let (bw, bs, be) = (b.words, b.starts, b.ends);
    assert((bw | w) | w == bw | w) by (bit_vector);
    assert((bs | l) | l == bs | l) by (bit_vector);
    assert((be | l) | l == be | l) by (bit_vector);
}

/// A fresh box holds no word and passes no prefix or suffix check.
pub proof fn lemma_fresh_box_holds_nothing(ptr: u64, s: Seq<char>)
    requires
        byte_len(s) >= 4,
    ensures
        !may_hold_word(empty_box(ptr), s),
        !may_end_with(empty_box(ptr), s),
        !may_start_with(empty_box(ptr), s),
{
    let b = encode_utf8(s);
    let k1 = (96 + b.len() % 16) as u32;
    let k2 = (96 + b[0] % 32) as u32;
    assert(k1 < 128);
    assert(k2 < 128);
    let (w, l) = (word_hash(s), leading_bytes_hash(s));
    let (t2, t3, t4, t5) = (
        bit((112 + xor_of_chars(s) % 16) as u32),
        bit((64 + (b[0] * 17) % 32) as u32),
        bit(((b[1] * 19) % 32) as u32),
        bit((32 + b[b.len() - 1] % 32) as u32),
    );
    let (u2, u3, u4) = (
        bit((64 + b[1] % 32) as u32),
        bit((32 + b[2] % 32) as u32),
        bit((b[3] % 32) as u32),
    );
    assert(w == (1u128 << k1) | t2 | t3 | t4 | t5);
    assert(l == (1u128 << k2) | u2 | u3 | u4);
    assert(k1 < 128 ==> (1u128 << k1) | t2 | t3 | t4 | t5 != 0) by (bit_vector);
    assert(k2 < 128 ==> (1u128 << k2) | u2 | u3 | u4 != 0) by (bit_vector);
    assert(w != 0 ==> 0u128 & w != w) by (bit_vector);
    assert(l != 0 ==> 0u128 & l != l) by (bit_vector);
}

/// The prefix check and the suffix check of a box agree on every word.
pub proof fn lemma_prefix_check_is_suffix_check(b: HashBoxView, s: Seq<char>)
    ensures
        may_start_with(b, s) == may_end_with(b, s),
{
}

impl HashBox {
    fn get_word_hash(hashable: &str) -> (r: u128)
        requires
            byte_len(hashable@) >= 3,
        ensures
            r == word_hash(hashable@),
    {
        let chars = chars_of(hashable);
        let mut xor_product: u32 = 0;
        let mut i: usize = 0;
        while i < chars.len()
            invariant
                i <= chars@.len(),
                xor_product == xor_of_chars(chars@.take(i as int)),
            decreases chars@.len() - i,
        {
            assert(chars@.take(i + 1).drop_last() =~= chars@.take(i as int));
            xor_product = xor_product ^ (chars[i] as u32);
            i = i + 1;
        }
        assert(chars@.take(chars@.len() as int) =~= chars@);
        let h = hashable.as_bytes();
        let n = h.len();
        let first = h[0] as u32;
        let second = h[1] as u32;
        let last = h[n - 1] as u32;
        (1u128 << ((96 + n % 16) as u32)) | (1u128 << (112 + xor_product % 16)) | (1u128 << (64 + (
        first * 17) % 32)) | (1u128 << ((second * 19) % 32)) | (1u128 << (32 + last % 32))
    }

    fn get_starts_with_hash(hashable: &str) -> (r: u128)
        requires
            byte_len(hashable@) >= 4,
        ensures
            r == leading_bytes_hash(hashable@),
    {
        let h = hashable.as_bytes();
        (1u128 << (96 + h[0] as u32 % 32)) | (1u128 << (64 + h[1] as u32 % 32)) | (1u128 << (32
            + h[2] as u32 % 32)) | (1u128 << (h[3] as u32 % 32))
    }

    /// The bytes are read from the back of a reversed byte iterator, that is
    /// from the front: the result is the signature of the first four bytes,
    /// the same as that of `get_starts_with_hash`.
    fn get_ends_with_hash(hashable: &str) -> (r: u128)
        requires
            byte_len(hashable@) >= 4,
        ensures
            r == leading_bytes_hash(hashable@),
    {
        let h = hashable.as_bytes();
        (1u128 << (96 + h[0] as u32 % 32)) | (1u128 << (64 + h[1] as u32 % 32)) | (1u128 << (32
            + h[2] as u32 % 32)) | (1u128 << (h[3] as u32 % 32))
    }

    pub fn match_ends_with(&self, h: &str) -> (r: bool)
        requires
            byte_len(h@) >= 4,
        ensures
            r == may_end_with(self@, h@),
    {
        let hash = HashBox::get_ends_with_hash(h);
        (self.ends_with_hash & hash) == hash
    }

    pub fn match_starts_with(&self, h: &str) -> (r: bool)
        requires
            byte_len(h@) >= 4,
        ensures
            r == may_start_with(self@, h@),
    {
        let hash = HashBox::get_starts_with_hash(h);
        (self.ends_with_hash & hash) == hash
    }

    pub fn get_ptr(&self) -> (r: u64)
        ensures
            r == self@.ptr,
    {
        self.mem_pointer
    }

    /// The number of words that one box of a page covers.
    pub fn size() -> (r: usize)
        ensures
            r == 32,
    {
        32
    }

    pub fn new(ptr: u64) -> (r: Self)
        ensures
            r@ == empty_box(ptr),
    {
        HashBox { mem_pointer: ptr, words_hash: 0, starts_with_hash: 0, ends_with_hash: 0 }
    }

    pub fn match_hashes(&self, hashable: &str) -> (r: bool)
        requires
            byte_len(hashable@) >= 4,
        ensures
            r == may_hold_word(self@, hashable@),
    {
        let word = HashBox::get_word_hash(hashable);
        let start = HashBox::get_starts_with_hash(hashable);
        let end = HashBox::get_ends_with_hash(hashable);
        (self.words_hash & word) == word && (self.starts_with_hash & start) == start && (
        self.ends_with_hash & end) == end
    }

    pub fn add_hash(&mut self, hashable: &str)
        requires
            byte_len(hashable@) >= 4,
        ensures
            final(self)@ == with_word(old(self)@, hashable@),
    {
        self.words_hash = self.words_hash | HashBox::get_word_hash(hashable);
        self.starts_with_hash = self.starts_with_hash | HashBox::get_starts_with_hash(hashable);
        self.ends_with_hash = self.ends_with_hash | HashBox::get_ends_with_hash(hashable);
    }
}

/// The signature boxes of every indexed page, under the page's key. The
/// first box of a page covers all its words; each further box covers 32
/// words from its position in the page text on.
#[derive(Debug)]
pub struct FileHasher {
    map: Vec<(String, Vec<HashBox>)>,
}

pub open spec fn box_models(v: Seq<HashBox>) -> Seq<HashBoxView> {
    v.map_values(|h: HashBox| h@)
}

/// The model of an entry: the key's characters and the models of the boxes.
pub open spec fn entry_model(e: (String, Vec<HashBox>)) -> (Seq<char>, Seq<HashBoxView>) {
    (e.0@, box_models(e.1@))
}

pub open spec fn entries_model(v: Seq<(String, Vec<HashBox>)>) -> Seq<(Seq<char>, Seq<HashBoxView>)> {
    v.map_values(|e: (String, Vec<HashBox>)| entry_model(e))
}

/// No key occurs twice.
pub open spec fn keys_distinct(es: Seq<(Seq<char>, Seq<HashBoxView>)>) -> bool {
    forall|i: int, j: int| 0 <= i < es.len() && 0 <= j < es.len() && i != j ==> #[trigger] es[i].0 != #[trigger] es[j].0
}

/// The entries after `boxes` are stored under `key`: the entry with that key
/// is replaced in place, or a new entry is appended.
pub open spec fn entries_after_add(
    es: Seq<(Seq<char>, Seq<HashBoxView>)>,
    key: Seq<char>,
    boxes: Seq<HashBoxView>,
) -> Seq<(Seq<char>, Seq<HashBoxView>)> {
    put(es, key, boxes)
}

/// After boxes are stored under a key, some entry holds that key and those boxes.
pub proof fn lemma_added_entry(es: Seq<(Seq<char>, Seq<HashBoxView>)>, key: Seq<char>, boxes: Seq<HashBoxView>) -> (k:
    int)
    ensures
        0 <= k < entries_after_add(es, key, boxes).len(),
        entries_after_add(es, key, boxes)[k] == (key, boxes),
{
    lemma_lookup_put(es, key, boxes, key);
    lemma_key_index(put(es, key, boxes), key);
    key_index(put(es, key, boxes), key)
}

/// The boxes stored under a key are the ones found under it afterwards, and
/// the pages under other keys stay as they were.
pub proof fn lemma_add_then_lookup(
    es: Seq<(Seq<char>, Seq<HashBoxView>)>,
    key: Seq<char>,
    boxes: Seq<HashBoxView>,
    other: Seq<char>,
)
    ensures
        lookup(entries_after_add(es, key, boxes), key) == Some(boxes),
        other != key ==> lookup(entries_after_add(es, key, boxes), other) == lookup(es, other),
{
    lemma_lookup_put(es, key, boxes, key);
    lemma_lookup_put(es, key, boxes, other);
}

/// The positions, in order, of the entries among the first `n` whose first
/// box passes the query without the page text.
pub open spec fn candidates_upto(es: Seq<(Seq<char>, Seq<HashBoxView>)>, lx: crate::index::lexem::SpecLexem, n: int) -> Seq<usize>
    decreases n,
{
    if n <= 0 {
        seq![]
    } else {
        let prev = candidates_upto(es, lx, n - 1);
        if eval_spec(lx, es[n - 1].1[0], None) {
            prev.push((n - 1) as usize)
        } else {
            prev
        }
    }
}

/// The candidates are positions of entries, in increasing order, so each
/// page comes up at most once.
pub proof fn lemma_candidates_ordered(es: Seq<(Seq<char>, Seq<HashBoxView>)>, lx: crate::index::lexem::SpecLexem, n: int)
    requires
        n <= es.len(),
        n <= usize::MAX,
    ensures
        forall|a: int, b: int| 0 <= a < b < candidates_upto(es, lx, n).len() ==> candidates_upto(es, lx, n)[a]
            < candidates_upto(es, lx, n)[b],
        forall|a: int| 0 <= a < candidates_upto(es, lx, n).len() ==> candidates_upto(es, lx, n)[a] < n,
    decreases n,
{
    if n > 0 {
        lemma_candidates_ordered(es, lx, n - 1);
        let prev = candidates_upto(es, lx, n - 1);
        let cur = candidates_upto(es, lx, n);
        if eval_spec(lx, es[n - 1].1[0], None) {
            assert(cur == prev.push((n - 1) as usize));
            assert(((n - 1) as usize) as int == n - 1);
            assert forall|a: int, b: int| 0 <= a < b < cur.len() implies cur[a] < cur[b] by {
                if b == prev.len() {
                    assert(cur[a] == prev[a]);
                } else {
                    assert(cur[a] == prev[a] && cur[b] == prev[b]);
                }
            }
            assert forall|a: int| 0 <= a < cur.len() implies cur[a] < n by {
                if a < prev.len() {
                    assert(cur[a] == prev[a]);
                }
            }
        }
    }
}

/// Every entry has a first box, and the query can be evaluated for it without the page text.
pub open spec fn candidates_safe(es: Seq<(Seq<char>, Seq<HashBoxView>)>, lx: crate::index::lexem::SpecLexem) -> bool {
    forall|i: int| 0 <= i < es.len() ==> #[trigger] es[i].1.len() > 0 && eval_safe(lx, es[i].1[0], None)
}

/// Some box after the first passes the query with the page text.
pub open spec fn confirmed(boxes: Seq<HashBoxView>, lx: crate::index::lexem::SpecLexem, mem: Seq<u8>) -> bool {
    exists|j: int| 1 <= j < boxes.len() && eval_spec(lx, #[trigger] boxes[j], Some(mem))
}

/// The boxes after the first are tried in order until one passes: each one tried can be evaluated.
pub open spec fn confirm_safe(boxes: Seq<HashBoxView>, lx: crate::index::lexem::SpecLexem, mem: Seq<u8>) -> bool {
    forall|j: int|
        1 <= j < boxes.len() && (forall|k: int| 1 <= k < j ==> !eval_spec(lx, #[trigger] boxes[k], Some(mem)))
            ==> eval_safe(lx, #[trigger] boxes[j], Some(mem))
}

impl View for FileHasher {
    type V = Seq<(Seq<char>, Seq<HashBoxView>)>;

    closed spec fn view(&self) -> Seq<(Seq<char>, Seq<HashBoxView>)> {
        entries_model(self.map@)
    }
}

impl FileHasher {
    #[verifier::type_invariant]
    spec fn well_formed(&self) -> bool {
        keys_distinct(self@)
    }

    pub fn new() -> (r: Self)
        ensures
            r@ == Seq::<(Seq<char>, Seq<HashBoxView>)>::empty(),
    {
        let r = FileHasher { map: Vec::new() };
        assert(r@ =~= Seq::<(Seq<char>, Seq<HashBoxView>)>::empty());
        r
    }

    /// The number of pages. No two pages have the same key.
    pub fn len(&self) -> (r: usize)
        ensures
            r == self@.len(),
            keys_distinct(self@),
    {
        proof {
            use_type_invariant(self);
        }
        self.map.len()
    }

    /// The key of the page at position `i`.
    pub fn key(&self, i: usize) -> (r: &String)
        requires
            i < self@.len(),
        ensures
            r@ == self@[i as int].0,
            keys_distinct(self@),
    {
        proof {
            use_type_invariant(self);
        }
        &self.map[i].0
    }

    /// Stores the boxes `v` of a page under the key `k`.
    pub fn add(&mut self, v: Vec<HashBox>, k: &str)
        ensures
            final(self)@ == entries_after_add(old(self)@, k@, box_models(v@)),
    {
        proof {
            use_type_invariant(&*self);
        }
        let key = k.to_owned();
        let ghost es = self@;
        let ghost boxes = box_models(v@);
        let mut i: usize = 0;
        while i < self.map.len()
            invariant
                self@ == es,
                es == entries_model(self.map@),
                keys_distinct(es),
                i <= es.len(),
                key@ == k@,
                es == old(self)@,
                boxes == box_models(v@),
                forall|j: int| 0 <= j < i ==> es[j].0 != k@,
            decreases es.len() - i,
        {
            assert(es[i as int] == entry_model(self.map@[i as int]));
            if self.map[i].0 == key {
                assert(es[i as int].0 == k@);
                proof {
                    lemma_key_index(es, k@);
                }
                assert(key_index(es, k@) == i);
                let mut entries: Vec<(String, Vec<HashBox>)> = Vec::new();
                std::mem::swap(&mut entries, &mut self.map);
                let ghost before = entries@;
                assert(entries_model(before) == es);
                assert(entry_model((key, v)) == (k@, boxes));
                entries.set(i, (key, v));
                assert(entries@ == before.update(i as int, (key, v)));
                assert(entries_model(entries@) =~= es.update(i as int, (k@, boxes)));
                assert(keys_distinct(entries_model(entries@)));
                self.map = entries;
                return;
            }
            i = i + 1;
        }
        proof {
            lemma_key_index(es, k@);
        }
        assert(key_index(es, k@) == -1);
        let mut entries: Vec<(String, Vec<HashBox>)> = Vec::new();
        std::mem::swap(&mut entries, &mut self.map);
        entries.push((key, v));
        assert(entries_model(entries@) =~= es.push((k@, boxes)));
        assert(keys_distinct(entries_model(entries@)));
        self.map = entries;
    }

    /// The positions, in order, of the pages whose first box passes the
    /// query without the page text: the pages that may answer it. Every page
    /// must have a first box for which the query can be evaluated (see
    /// `try_look_out_candidates`).
    pub fn look_out_candidates(&self, lx: &Lexem) -> (r: Vec<usize>)
        requires
            candidates_safe(self@, lx@),
        ensures
            r@ == candidates_upto(self@, lx@, self@.len() as int),
            keys_distinct(self@),
            forall|a: int, b: int| 0 <= a < b < r@.len() ==> r@[a] < r@[b],
            forall|a: int| 0 <= a < r@.len() ==> r@[a] < self@.len(),
    {
        let total = self.map.len();
        proof {
            use_type_invariant(self);
            assert(self@.len() == total);
            lemma_candidates_ordered(self@, lx@, self@.len() as int);
        }
        let mut result: Vec<usize> = Vec::new();
        let mut i: usize = 0;
        while i < self.map.len()
            invariant
                i <= self@.len(),
                self@.len() == self.map@.len(),
                candidates_safe(self@, lx@),
                result@ == candidates_upto(self@, lx@, i as int),
            decreases self@.len() - i,
        {
            assert(self@[i as int] == entry_model(self.map@[i as int]));
            assert(self@[i as int].1.len() > 0);
            let boxes = &self.map[i].1;
            assert(self@[i as int].1[0] == boxes@[0]@);
            if eval(lx, &boxes[0], None) {
                result.push(i);
            }
            i = i + 1;
        }
        result
    }

    /// As `look_out_candidates`, or `None` where a page has no box or the
    /// query cannot be evaluated for its first box.
    pub fn try_look_out_candidates(&self, lx: &Lexem) -> (r: Option<Vec<usize>>)
        ensures
            r is Some <==> candidates_safe(self@, lx@),
            r matches Some(v) ==> v@ == candidates_upto(self@, lx@, self@.len() as int),
            r matches Some(v) ==> forall|a: int, b: int| 0 <= a < b < v@.len() ==> v@[a] < v@[b],
            r matches Some(v) ==> forall|a: int| 0 <= a < v@.len() ==> v@[a] < self@.len(),
            keys_distinct(self@),
    {
        proof {
            use_type_invariant(self);
        }
        let mut i: usize = 0;
        while i < self.map.len()
            invariant
                keys_distinct(self@),
                i <= self@.len(),
                self@.len() == self.map@.len(),
                forall|j: int| 0 <= j < i ==> #[trigger] self@[j].1.len() > 0 && eval_safe(lx@, self@[j].1[0], None),
            decreases self@.len() - i,
        {
            assert(self@[i as int] == entry_model(self.map@[i as int]));
            let boxes = &self.map[i].1;
            assert(self@[i as int].1.len() == boxes@.len());
            if boxes.len() == 0 {
                assert(!candidates_safe(self@, lx@)) by {
                    assert(!(self@[i as int].1.len() > 0));
                }
                return None;
            }
            assert(self@[i as int].1[0] == boxes@[0]@);
            let checked = try_eval(lx, &boxes[0], None);
            if checked.is_none() {
                assert(!candidates_safe(self@, lx@)) by {
                    assert(self@[i as int].1.len() > 0);
                }
                return None;
            }
            assert(self@[i as int].1.len() > 0 && eval_safe(lx@, self@[i as int].1[0], None));
            assert forall|j: int| 0 <= j < i + 1 implies #[trigger] self@[j].1.len() > 0 && eval_safe(
                lx@,
                self@[j].1[0],
                None,
            ) by {
                if j == i {
                    assert(self@[i as int].1.len() > 0);
                }
            }
            i = i + 1;
        }
        Some(self.look_out_candidates(lx))
    }

    /// Whether some box after the first of the page at position `i` passes
    /// the query with the page text `memory`. The boxes tried, in order up to
    /// the first that passes, must allow the evaluation (see
    /// `try_look_out_confirm`).
    pub fn look_out_confirm(&self, i: usize, lx: &Lexem, memory: &[u8]) -> (r: bool)
        requires
            i < self@.len(),
            confirm_safe(self@[i as int].1, lx@, memory@),
        ensures
            r == confirmed(self@[i as int].1, lx@, memory@),
    {
        assert(self@[i as int] == entry_model(self.map@[i as int]));
        let boxes = &self.map[i].1;
        let ghost bv = self@[i as int].1;
        let mut j: usize = 1;
        while j < boxes.len()
            invariant
                1 <= j,
                i < self@.len(),
                bv == self@[i as int].1,
                bv == box_models(boxes@),
                confirm_safe(bv, lx@, memory@),
                forall|k: int| 1 <= k < j ==> !eval_spec(lx@, #[trigger] bv[k], Some(memory@)),
            decreases boxes@.len() - j,
        {
            assert(bv[j as int] == boxes@[j as int]@);
            if eval(lx, &boxes[j], Some(memory)) {
                assert(confirmed(bv, lx@, memory@));
                return true;
            }
            j = j + 1;
        }
        assert(!confirmed(bv, lx@, memory@));
        false
    }

    /// As `look_out_confirm`, or `None` where a box that would be tried does
    /// not allow the evaluation.
    pub fn try_look_out_confirm(&self, i: usize, lx: &Lexem, memory: &[u8]) -> (r: Option<bool>)
        requires
            i < self@.len(),
        ensures
            r is Some <==> confirm_safe(self@[i as int].1, lx@, memory@),
            r matches Some(v) ==> v == confirmed(self@[i as int].1, lx@, memory@),
    {
        assert(self@[i as int] == entry_model(self.map@[i as int]));
        let boxes = &self.map[i].1;
        let ghost bv = self@[i as int].1;
        let mut j: usize = 1;
        while j < boxes.len()
            invariant
                1 <= j,
                i < self@.len(),
                bv == self@[i as int].1,
                bv == box_models(boxes@),
                forall|k: int| 1 <= k < j ==> !eval_spec(lx@, #[trigger] bv[k], Some(memory@)),
                forall|k: int| 1 <= k < j ==> eval_safe(lx@, #[trigger] bv[k], Some(memory@)),
            decreases boxes@.len() - j,
        {
            assert(bv[j as int] == boxes@[j as int]@);
            match try_eval(lx, &boxes[j], Some(memory)) {
                None => {
                    assert(!confirm_safe(bv, lx@, memory@)) by {
                        assert(!eval_safe(lx@, bv[j as int], Some(memory@)));
                    }
                    return None;
                },
                Some(true) => {
                    assert(confirm_safe(bv, lx@, memory@));
                    return Some(self.look_out_confirm(i, lx, memory));
                },
                Some(false) => {},
            }
            j = j + 1;
        }
        assert(confirm_safe(bv, lx@, memory@));
        Some(self.look_out_confirm(i, lx, memory))
    }
}

} // verus!
