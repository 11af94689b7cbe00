//! What the crawler takes from a fetched page: its words, their stems, the
//! text files written for it, the signature boxes that index it, and the
//! counts of its terms.

use vstd::prelude::*;

use crate::crawl::web::{
    opt_string_views, regex_group, regex_group_of, regex_split, regex_split_of, regex_valid, stem,
    stem_of, string_views, Language,
};
use crate::index::fprocessing::{
    char_vec_views, eval_spec, lemma_words_of_len, lemma_words_of_spaced, leading_words, text_at, words_of,
    SpecFilter,
};
use crate::index::hash::{
    box_models, byte_len, candidates_upto, confirmed, empty_box, entries_after_add, lemma_added_entry,
    lemma_added_word_is_held, lemma_adding_keeps_held, may_end_with, may_hold_word, may_start_with,
    with_word, HashBox, HashBoxView,
};
use crate::index::lexem::SpecLexem;
use crate::table::{
    bump, count_of, count_views, find_key, lemma_key_index, lemma_lookup_put, lookup, put,
};
use crate::text::{lemma_encode_concat, lemma_spaced_concat, spaced, trim, trimmed};
use crate::unicode::{chars_of, lowercase_of, string_from_chars, to_lowercase, unicode_white_space};

verus! {

/// The pattern of the HTML tags that separate the text segments of a page.
pub const TAG_PATTERN: &'static str = "<[^>]*>";

/// The pattern of a word: a letter followed by one or more word characters.
pub const WORD_PATTERN: &'static str = "\\p{Alphabetic}\\w+";

/// The words kept from the matches `ms` of the word pattern: those of at
/// least three bytes, in lower case.
pub open spec fn kept_words(ms: Seq<Option<Seq<char>>>) -> Seq<Seq<char>>
    decreases ms.len(),
{
    if ms.len() == 0 {
        seq![]
    } else {
        let prev = kept_words(ms.drop_last());
        match ms.last() {
            Some(w) => if byte_len(w) >= 3 {
                prev.push(lowercase_of(w))
            } else {
                prev
            },
            None => prev,
        }
    }
}

/// The words of one text segment: the matches of the word pattern in the
/// segment without its surrounding white space, kept as `kept_words` says.
pub open spec fn segment_words(seg: Seq<char>) -> Seq<Seq<char>> {
    kept_words(regex_group_of(WORD_PATTERN@, trim(seg), 0))
}

/// The words of the segments `segs`, segment after segment.
pub open spec fn words_of_segments(segs: Seq<Seq<char>>) -> Seq<Seq<char>>
    decreases segs.len(),
{
    if segs.len() == 0 {
        seq![]
    } else {
        words_of_segments(segs.drop_last()) + segment_words(segs.last())
    }
}

/// The words of a page: those of the text between its HTML tags.
pub open spec fn page_words_of(page: Seq<char>) -> Seq<Seq<char>> {
    words_of_segments(regex_split_of(TAG_PATTERN@, page))
}

/// The stem of a word: its English stem, stemmed again as Russian.
pub open spec fn stem_pair_of(w: Seq<char>) -> Seq<char> {
    stem_of(Language::Russian, stem_of(Language::English, w))
}

/// The stems of the words `ws`, in order.
pub open spec fn stems_of(ws: Seq<Seq<char>>) -> Seq<Seq<char>> {
    ws.map_values(|w: Seq<char>| stem_pair_of(w))
}

/// The stem recorded for each word is the Russian Snowball stem of its
/// English Snowball stem, word by word and in order.
pub proof fn lemma_stems_russian_of_english(ws: Seq<Seq<char>>)
    ensures
        stems_of(ws) == ws.map_values(
            |w: Seq<char>| stem_of(Language::Russian, stem_of(Language::English, w)),
        ),
        stems_of(ws).len() == ws.len(),
        forall|i: int|
            0 <= i < ws.len() ==> #[trigger] stems_of(ws)[i] == stem_of(
                Language::Russian,
                stem_of(Language::English, ws[i]),
            ),
{
    assert(stems_of(ws) =~= ws.map_values(
        |w: Seq<char>| stem_of(Language::Russian, stem_of(Language::English, w)),
    ));
}

/// The words of the text segment `seg` (see `segment_words`).
fn words_of_segment(seg: &str, out: &mut Vec<String>)
    requires
        regex_valid(WORD_PATTERN@),
    ensures
        string_views(final(out)@) == string_views(old(out)@) + segment_words(seg@),
{
    let chars = chars_of(seg);
    let t = string_from_chars(&trimmed(&chars));
    let ms = regex_group(WORD_PATTERN, t.as_str(), 0);
    let ghost mv = opt_string_views(ms@);
    let ghost start = string_views(out@);
    let mut i: usize = 0;
    assert(mv.take(0) =~= Seq::<Option<Seq<char>>>::empty());
    assert(start + kept_words(mv.take(0)) =~= start);
    while i < ms.len()
        invariant
            i <= ms@.len(),
            mv == opt_string_views(ms@),
            mv == regex_group_of(WORD_PATTERN@, trim(seg@), 0),
            string_views(out@) == start + kept_words(mv.take(i as int)),
        decreases ms@.len() - i,
    {
        assert(mv.take(i + 1).drop_last() =~= mv.take(i as int));
        let ghost prev = string_views(out@);
        match &ms[i] {
            Some(w) => {
                assert(mv.take(i + 1).last() == Some(w@));
                if w.as_str().as_bytes().len() >= 3 {
                    let lw = to_lowercase(w.as_str());
                    out.push(lw);
                    assert(string_views(out@) =~= prev.push(lw@));
                }
            },
            None => {
                assert(mv.take(i + 1).last() is None);
            },
        }
        i = i + 1;
        assert(string_views(out@) =~= start + kept_words(mv.take(i as int)));
    }
    assert(mv.take(ms@.len() as int) =~= mv);
}

/// The words of the page `page` (see `page_words_of`).
pub fn page_words(page: &str) -> (r: Vec<String>)
    requires
        regex_valid(TAG_PATTERN@),
        regex_valid(WORD_PATTERN@),
    ensures
        string_views(r@) == page_words_of(page@),
{
    let segs = regex_split(TAG_PATTERN, page);
    let ghost sv = string_views(segs@);
    let mut out: Vec<String> = Vec::new();
    let mut i: usize = 0;
    assert(string_views(out@) =~= words_of_segments(sv.take(0)));
    while i < segs.len()
        invariant
            i <= segs@.len(),
            regex_valid(WORD_PATTERN@),
            sv == string_views(segs@),
            sv == regex_split_of(TAG_PATTERN@, page@),
            string_views(out@) == words_of_segments(sv.take(i as int)),
        decreases segs@.len() - i,
    {
        assert(sv.take(i + 1).drop_last() =~= sv.take(i as int));
        assert(sv.take(i + 1).last() == segs@[i as int]@);
        words_of_segment(segs[i].as_str(), &mut out);
        i = i + 1;
    }
    assert(sv.take(segs@.len() as int) =~= sv);
    out
}

/// The stem of the word `w` (see `stem_pair_of`).
pub fn stem_word(w: &str) -> (r: String)
    ensures
        r@ == stem_pair_of(w@),
        r@ == stem_of(Language::Russian, stem_of(Language::English, w@)),
{
    let en = stem(Language::English, w);
    stem(Language::Russian, en.as_str())
}

/// The stems of the words `ws`.
pub fn stem_words(ws: &Vec<String>) -> (r: Vec<String>)
    ensures
        string_views(r@) == stems_of(string_views(ws@)),
{
    let mut r: Vec<String> = Vec::new();
    let mut i: usize = 0;
    while i < ws.len()
        invariant
            i <= ws@.len(),
            string_views(r@) == stems_of(string_views(ws@)).take(i as int),
        decreases ws@.len() - i,
    {
        let s = stem_word(ws[i].as_str());
        assert(string_views(ws@)[i as int] == ws@[i as int]@);
        assert(stems_of(string_views(ws@))[i as int] == stem_pair_of(ws@[i as int]@));
        let ghost before = string_views(r@);
        r.push(s);
        assert(string_views(r@) =~= before.push(s@));
        i = i + 1;
        assert(string_views(r@) =~= stems_of(string_views(ws@)).take(i as int));
    }
    assert(stems_of(string_views(ws@)).take(ws@.len() as int) =~= stems_of(string_views(ws@)));
    r
}

/// The text of the words `ws`, each followed by one space.
pub fn spaced_text(ws: &Vec<String>) -> (r: String)
    ensures
        r@ == spaced(string_views(ws@)),
{
    let mut out: Vec<char> = Vec::new();
    let mut i: usize = 0;
    let ghost wv = string_views(ws@);
    assert(wv.take(0) =~= Seq::<Seq<char>>::empty());
    while i < ws.len()
        invariant
            i <= ws@.len(),
            wv == string_views(ws@),
            out@ == spaced(wv.take(i as int)),
        decreases ws@.len() - i,
    {
        let w = chars_of(ws[i].as_str());
        let ghost before = out@;
        let mut j: usize = 0;
        while j < w.len()
            invariant
                j <= w@.len(),
                out@ == before + w@.take(j as int),
            decreases w@.len() - j,
        {
            out.push(w[j]);
            j = j + 1;
            assert(out@ =~= before + w@.take(j as int));
        }
        out.push(' ');
        assert(w@.take(w@.len() as int) =~= w@);
        assert(wv.take(i + 1).drop_last() =~= wv.take(i as int));
        assert(out@ =~= spaced(wv.take(i + 1)));
        i = i + 1;
    }
    assert(wv.take(ws@.len() as int) =~= wv);
    string_from_chars(&out)
}

/// The box `b` after each of the words `ws` is added to it, in order.
pub open spec fn with_words(b: HashBoxView, ws: Seq<Seq<char>>) -> HashBoxView
    decreases ws.len(),
{
    if ws.len() == 0 {
        b
    } else {
        with_word(with_words(b, ws.drop_last()), ws.last())
    }
}

/// The byte position in the page text where word `i` of `ws` starts: the
/// length of the earlier words, each followed by a space.
pub open spec fn word_offset(ws: Seq<Seq<char>>, i: int) -> nat {
    byte_len(spaced(ws.take(i)))
}

/// The number of clusters of 32 words among `n` words; where there is no
/// word there is still one, empty, cluster.
pub open spec fn cluster_count(n: int) -> int {
    if n <= 0 {
        1
    } else {
        (n + 31) / 32
    }
}

/// The box of cluster `k` once the first `n` words are added: it starts at
/// word `32 * k` and holds that word and the next ones up to 32.
pub open spec fn cluster_box(ws: Seq<Seq<char>>, k: int, n: int) -> HashBoxView {
    let start = 32 * k;
    let end = if start + 32 < n {
        start + 32
    } else {
        n
    };
    with_words(empty_box(word_offset(ws, start) as u64), ws.subrange(start, end))
}

/// The signature boxes of the first `n` words: first a box of all of them,
/// then the box of each cluster.
pub open spec fn boxes_upto(ws: Seq<Seq<char>>, n: int) -> Seq<HashBoxView> {
    seq![with_words(empty_box(0), ws.take(n))] + Seq::new(
        cluster_count(n) as nat,
        |k: int| cluster_box(ws, k, n),
    )
}

/// The signature boxes of a page of the words `ws`.
pub open spec fn hash_line_of(ws: Seq<Seq<char>>) -> Seq<HashBoxView> {
    boxes_upto(ws, ws.len() as int)
}

/// The text of one more word is longer by the word's bytes and a space.
pub proof fn lemma_offset_step(ws: Seq<Seq<char>>, i: int)
    requires
        0 <= i < ws.len(),
    ensures
        word_offset(ws, i + 1) == word_offset(ws, i) + byte_len(ws[i]) + 1,
{
    let t = ws.take(i + 1);
    assert(t.drop_last() =~= ws.take(i));
    assert(t.last() == ws[i]);
    lemma_encode_concat(spaced(ws.take(i)) + ws[i], seq![' ']);
    lemma_encode_concat(spaced(ws.take(i)), ws[i]);
    crate::text::lemma_encode_push(Seq::<char>::empty(), ' ');
    assert(Seq::<char>::empty().push(' ') =~= seq![' ']);
    assert((' ' as u32) == 32);
    assert(vstd::utf8::encode_utf8(Seq::<char>::empty()).len() == 0);
}

/// Word positions grow with the word index.
pub proof fn lemma_offset_monotone(ws: Seq<Seq<char>>, i: int, j: int)
    requires
        0 <= i <= j <= ws.len(),
    ensures
        word_offset(ws, i) <= word_offset(ws, j),
    decreases j - i,
{
    if i < j {
        lemma_offset_step(ws, j - 1);
        lemma_offset_monotone(ws, i, j - 1);
    }
}

/// The boxes after one more word: a fresh box at the word's position is
/// appended where `start_new` holds, then the word is added to the first box
/// and to the last.
pub open spec fn boxes_next(b: Seq<HashBoxView>, ws: Seq<Seq<char>>, i: int, start_new: bool) -> Seq<HashBoxView> {
    let b1 = if start_new {
        b.push(empty_box(word_offset(ws, i) as u64))
    } else {
        b
    };
    b1.update(0, with_word(b1[0], ws[i])).update(b1.len() - 1, with_word(b1[b1.len() - 1], ws[i]))
}

proof fn lemma_cluster_unchanged(ws: Seq<Seq<char>>, k: int, i: int)
    requires
        0 <= k,
        32 * k + 32 <= i,
    ensures
        cluster_box(ws, k, i + 1) == cluster_box(ws, k, i),
{
}

proof fn lemma_cluster_grows(ws: Seq<Seq<char>>, k: int, i: int)
    requires
        0 <= k,
        32 * k <= i < 32 * k + 32,
        i < ws.len(),
    ensures
        cluster_box(ws, k, i + 1) == with_word(cluster_box(ws, k, i), ws[i]),
{
    let start = 32 * k;
    let sub = ws.subrange(start, i + 1);
    assert(sub.drop_last() =~= ws.subrange(start, i));
    assert(sub.last() == ws[i]);
}

proof fn lemma_cluster_count_step(i: int, h: int, c: int)
    requires
        0 <= i,
        h == cluster_count(i),
        i == 0 ==> c == 0,
        i > 0 ==> 1 <= c <= 32 && i == 32 * (h - 1) + c,
    ensures
        cluster_count(i + 1) == if c >= 32 {
            h + 1
        } else {
            h
        },
        c < 32 ==> 32 * (h - 1) <= i < 32 * (h - 1) + 32,
        c >= 32 ==> i == 32 * h,
        h >= 1,
{
    if i > 0 {
        assert((i + 31) / 32 == h) by (nonlinear_arith)
            requires
                i == 32 * (h - 1) + c,
                1 <= c <= 32,
        ;
        if c >= 32 {
            assert((i + 32) / 32 == h + 1) by (nonlinear_arith)
                requires
                    i == 32 * h,
            ;
        } else {
            assert((i + 32) / 32 == h) by (nonlinear_arith)
                requires
                    i == 32 * (h - 1) + c,
                    1 <= c < 32,
            ;
        }
    }
}

proof fn lemma_boxes_step(ws: Seq<Seq<char>>, i: int, h: int, c: int)
    requires
        0 <= i < ws.len(),
        h == cluster_count(i),
        i == 0 ==> c == 0,
        i > 0 ==> 1 <= c <= 32 && i == 32 * (h - 1) + c,
    ensures
        boxes_upto(ws, i + 1) == boxes_next(boxes_upto(ws, i), ws, i, c >= 32),
        cluster_count(i + 1) == if c >= 32 {
            h + 1
        } else {
            h
        },
        boxes_upto(ws, i).len() == h + 1,
{
    lemma_cluster_count_step(i, h, c);
    let b = boxes_upto(ws, i);
    let after = boxes_upto(ws, i + 1);
    let b1 = if c >= 32 {
        b.push(empty_box(word_offset(ws, i) as u64))
    } else {
        b
    };
    let next = boxes_next(b, ws, i, c >= 32);
    let hn = cluster_count(i + 1);
    assert(b1.len() == hn + 1);
    let t = ws.take(i + 1);
    assert(t.drop_last() =~= ws.take(i));
    assert(after[0] == next[0]);
    assert forall|k: int| 0 <= k < hn - 1 implies #[trigger] after[k + 1] == next[k + 1] by {
        assert(32 * k + 32 <= i);
        lemma_cluster_unchanged(ws, k, i);
        assert(next[k + 1] == b1[k + 1]);
        assert(b1[k + 1] == b[k + 1]);
    }
    let k = hn - 1;
    lemma_cluster_grows(ws, k, i);
    if c >= 32 {
        assert(ws.subrange(32 * k, i) =~= Seq::<Seq<char>>::empty());
        assert(b1[k + 1] == cluster_box(ws, k, i));
    }
    assert(after[k + 1] == next[k + 1]);
    assert(after =~= next);
}

/// The signature boxes of the page of the words `words` (see `hash_line_of`).
/// Every word has at least four bytes, and the page text fits in a `u64`.
pub fn build_hash_line(words: &Vec<String>) -> (r: Vec<HashBox>)
    requires
        forall|j: int| 0 <= j < words@.len() ==> byte_len(#[trigger] words@[j]@) >= 4,
        word_offset(string_views(words@), words@.len() as int) <= u64::MAX,
    ensures
        box_models(r@) == hash_line_of(string_views(words@)),
{
    let ghost wv = string_views(words@);
    let n = words.len();
    let mut line: Vec<HashBox> = Vec::new();
    line.push(HashBox::new(0));
    line.push(HashBox::new(0));
    let mut hb_index: usize = 1;
    let mut counter: usize = 0;
    let mut hb_ptr: u64 = 0;
    assert(wv.take(0) =~= Seq::<Seq<char>>::empty());
    assert(spaced(Seq::<Seq<char>>::empty()) =~= Seq::<char>::empty());
    assert(wv.subrange(0, 0) =~= Seq::<Seq<char>>::empty());
    assert(box_models(line@) =~= boxes_upto(wv, 0));
    let mut i: usize = 0;
    while i < n
        invariant
            n == words@.len(),
            wv == string_views(words@),
            wv.len() == n,
            i <= n,
            forall|j: int| 0 <= j < words@.len() ==> byte_len(#[trigger] words@[j]@) >= 4,
            word_offset(wv, n as int) <= u64::MAX,
            box_models(line@) == boxes_upto(wv, i as int),
            hb_index as int == cluster_count(i as int),
            i == 0 ==> counter == 0,
            i > 0 ==> 1 <= counter <= 32 && i == 32 * (hb_index - 1) + counter,
            hb_ptr == word_offset(wv, i as int),
        decreases n - i,
    {
        let ghost before = box_models(line@);
        let ghost start_new = counter >= 32;
        proof {
            lemma_boxes_step(wv, i as int, hb_index as int, counter as int);
        }
        assert(wv[i as int] == words@[i as int]@);
        if counter >= 32 {
            counter = 0;
            hb_index = hb_index + 1;
            line.push(HashBox::new(hb_ptr));
        }
        let ghost b1 = box_models(line@);
        assert(b1 =~= if start_new {
            before.push(empty_box(word_offset(wv, i as int) as u64))
        } else {
            before
        });
        let w = words[i].as_str();
        let mut first = line[0];
        first.add_hash(w);
        line.set(0, first);
        let mut last = line[hb_index];
        last.add_hash(w);
        line.set(hb_index, last);
        counter = counter + 1;
        assert(box_models(line@) =~= boxes_next(before, wv, i as int, start_new));
        proof {
            lemma_offset_step(wv, i as int);
            lemma_offset_monotone(wv, i + 1, n as int);
        }
        hb_ptr = hb_ptr + (w.as_bytes().len() as u64) + 1;
        i = i + 1;
    }
    assert(wv.take(n as int) =~= wv);
    line
}

/// Adding words keeps a box's position.
pub proof fn lemma_with_words_ptr(b: HashBoxView, ws: Seq<Seq<char>>)
    ensures
        with_words(b, ws).ptr == b.ptr,
    decreases ws.len(),
{
    if ws.len() > 0 {
        lemma_with_words_ptr(b, ws.drop_last());
    }
}

/// A box holds every word added to it, whatever was added before or after,
/// and passes the prefix and suffix checks of each.
pub proof fn lemma_with_words_hold(b: HashBoxView, ws: Seq<Seq<char>>, j: int)
    requires
        0 <= j < ws.len(),
    ensures
        may_hold_word(with_words(b, ws), ws[j]),
        may_start_with(with_words(b, ws), ws[j]),
        may_end_with(with_words(b, ws), ws[j]),
    decreases ws.len(),
{
    let prev = with_words(b, ws.drop_last());
    if j == ws.len() - 1 {
        lemma_added_word_is_held(prev, ws.last());
    } else {
        assert(ws.drop_last()[j] == ws[j]);
        lemma_with_words_hold(b, ws.drop_last(), j);
        lemma_adding_keeps_held(prev, ws.last(), ws[j]);
    }
}

/// The signature boxes of a page hold each of its words: the first box,
/// and the box of the word's cluster of 32. A page is never missed by the
/// signature check of one of its own words.
pub proof fn lemma_page_boxes_hold_words(ws: Seq<Seq<char>>, i: int)
    requires
        0 <= i < ws.len(),
    ensures
        hash_line_of(ws).len() == 1 + cluster_count(ws.len() as int),
        1 + i / 32 < hash_line_of(ws).len(),
        may_hold_word(hash_line_of(ws)[0], ws[i]),
        may_hold_word(hash_line_of(ws)[1 + i / 32], ws[i]),
        may_start_with(hash_line_of(ws)[1 + i / 32], ws[i]),
        may_end_with(hash_line_of(ws)[1 + i / 32], ws[i]),
{
    let n = ws.len() as int;
    let k = i / 32;
    assert(ws.take(n) =~= ws);
    lemma_with_words_hold(empty_box(0), ws, i);
    assert(k < cluster_count(n)) by (nonlinear_arith)
        requires
            0 <= i < n,
            k == i / 32,
            cluster_count(n) == (n + 31) / 32,
    ;
    let start = 32 * k;
    let end = if start + 32 < n {
        start + 32
    } else {
        n
    };
    assert(start <= i < end) by (nonlinear_arith)
        requires
            k == i / 32,
            start == 32 * k,
            0 <= i < n,
            end == if start + 32 < n {
                start + 32
            } else {
                n
            },
    ;
    let sub = ws.subrange(start, end);
    assert(sub[i - start] == ws[i]);
    lemma_with_words_hold(empty_box(word_offset(ws, start) as u64), sub, i - start);
}

/// The box of cluster `k` of a page starts where word `32 * k` starts in
/// the page text: after the earlier words, each followed by a space.
pub proof fn lemma_cluster_position(ws: Seq<Seq<char>>, k: int)
    requires
        0 <= k < cluster_count(ws.len() as int),
        word_offset(ws, ws.len() as int) <= u64::MAX,
    ensures
        hash_line_of(ws)[k + 1].ptr == word_offset(ws, 32 * k),
{
    let n = ws.len() as int;
    if n > 0 {
        assert(32 * k < n) by (nonlinear_arith)
            requires
                0 <= k < (n + 31) / 32,
                n > 0,
        ;
        lemma_offset_monotone(ws, 32 * k, n);
    }
    lemma_with_words_ptr(empty_box(word_offset(ws, 32 * k) as u64), ws.subrange(32 * k, if 32 * k + 32 < n {
        32 * k + 32
    } else {
        n
    }));
}

/// The number of times `s` occurs in `xs`.
pub open spec fn occurrences(xs: Seq<Seq<char>>, s: Seq<char>) -> nat
    decreases xs.len(),
{
    if xs.len() == 0 {
        0
    } else {
        occurrences(xs.drop_last(), s) + if xs.last() == s {
            1nat
        } else {
            0nat
        }
    }
}

/// How often each term of `xs` occurs, in the order of first occurrence.
pub open spec fn term_counts(xs: Seq<Seq<char>>) -> Seq<(Seq<char>, u32)>
    decreases xs.len(),
{
    if xs.len() == 0 {
        seq![]
    } else {
        bump(term_counts(xs.drop_last()), xs.last())
    }
}

/// The counts of pages per term, `idf`, after a page of the terms `xs`:
/// each term of the page counts once more, however often it occurs there.
pub open spec fn idf_after(idf: Seq<(Seq<char>, u32)>, xs: Seq<Seq<char>>) -> Seq<(Seq<char>, u32)>
    decreases xs.len(),
{
    if xs.len() == 0 {
        idf
    } else {
        let prev = idf_after(idf, xs.drop_last());
        if xs.drop_last().contains(xs.last()) {
            prev
        } else {
            bump(prev, xs.last())
        }
    }
}

/// The count of a term in the table of a page is the number of times it
/// occurs there, and the term has an entry exactly where it occurs.
pub proof fn lemma_term_counts(xs: Seq<Seq<char>>, s: Seq<char>)
    requires
        xs.len() < u32::MAX,
    ensures
        count_of(term_counts(xs), s) == occurrences(xs, s),
        lookup(term_counts(xs), s) is Some <==> xs.contains(s),
        occurrences(xs, s) <= xs.len(),
    decreases xs.len(),
{
    if xs.len() > 0 {
        let prev = xs.drop_last();
        let k = xs.last();
        lemma_term_counts(prev, s);
        lemma_term_counts(prev, k);
        let t = term_counts(prev);
        lemma_lookup_put(t, k, (count_of(t, k) + 1) as u32, s);
        assert(xs.contains(s) <==> prev.contains(s) || k == s) by {
            if prev.contains(s) {
                let j = choose|j: int| 0 <= j < prev.len() && prev[j] == s;
                assert(xs[j] == s);
            }
            if xs.contains(s) && k != s {
                let j = choose|j: int| 0 <= j < xs.len() && xs[j] == s;
                assert(prev[j] == s);
            }
            if k == s {
                assert(xs[xs.len() - 1] == s);
            }
        }
    }
}

/// The count of pages of a term grows by one for a page where the term
/// occurs, and stays for a page where it does not.
pub proof fn lemma_idf_after(idf: Seq<(Seq<char>, u32)>, xs: Seq<Seq<char>>, s: Seq<char>)
    requires
        forall|t: Seq<char>| #[trigger] count_of(idf, t) < u32::MAX,
    ensures
        count_of(idf_after(idf, xs), s) == count_of(idf, s) + if xs.contains(s) {
            1nat
        } else {
            0nat
        },
    decreases xs.len(),
{
    if xs.len() > 0 {
        let prev = xs.drop_last();
        let k = xs.last();
        lemma_idf_after(idf, prev, s);
        lemma_idf_after(idf, prev, k);
        let p = idf_after(idf, prev);
        lemma_lookup_put(p, k, (count_of(p, k) + 1) as u32, s);
        assert(xs.contains(s) <==> prev.contains(s) || k == s) by {
            if prev.contains(s) {
                let j = choose|j: int| 0 <= j < prev.len() && prev[j] == s;
                assert(xs[j] == s);
            }
            if xs.contains(s) && k != s {
                let j = choose|j: int| 0 <= j < xs.len() && xs[j] == s;
                assert(prev[j] == s);
            }
            if k == s {
                assert(xs[xs.len() - 1] == s);
            }
        }
        assert(count_of(idf, k) < u32::MAX);
    }
}

/// The term counts of the page of the stems `stems`, and the counts of
/// pages per term `idf` updated for that page.
pub fn count_terms(stems: &Vec<String>, idf: &mut Vec<(String, u32)>) -> (tf: Vec<(String, u32)>)
    requires
        stems@.len() < u32::MAX,
        forall|t: Seq<char>| #[trigger] count_of(count_views(old(idf)@), t) < u32::MAX,
    ensures
        count_views(tf@) == term_counts(string_views(stems@)),
        count_views(final(idf)@) == idf_after(count_views(old(idf)@), string_views(stems@)),
{
    let ghost sv = string_views(stems@);
    let ghost idf0 = count_views(idf@);
    let mut tf: Vec<(String, u32)> = Vec::new();
    let mut i: usize = 0;
    assert(sv.take(0) =~= Seq::<Seq<char>>::empty());
    assert(count_views(tf@) =~= Seq::<(Seq<char>, u32)>::empty());
    while i < stems.len()
        invariant
            i <= stems@.len(),
            stems@.len() < u32::MAX,
            sv == string_views(stems@),
            forall|t: Seq<char>| #[trigger] count_of(idf0, t) < u32::MAX,
            count_views(tf@) == term_counts(sv.take(i as int)),
            count_views(idf@) == idf_after(idf0, sv.take(i as int)),
        decreases stems@.len() - i,
    {
        let s = &stems[i];
        let ghost sk = s@;
        let ghost prefix = sv.take(i as int);
        let ghost tv = count_views(tf@);
        let ghost iv = count_views(idf@);
        assert(sv[i as int] == sk);
        assert(sv.take(i + 1).drop_last() =~= prefix);
        assert(sv.take(i + 1).last() == sk);
        proof {
            lemma_term_counts(prefix, sk);
            lemma_idf_after(idf0, prefix, sk);
            lemma_key_index(tv, sk);
            lemma_key_index(iv, sk);
        }
        match find_key::<u32, u32>(&tf, s, Ghost(tv)) {
            Some(j) => {
                let c = tf[j].1;
                assert(count_of(tv, sk) == c);
                tf.set(j, (s.clone(), c + 1));
                assert(count_views(tf@) =~= put(tv, sk, (c + 1) as u32));
            },
            None => {
                assert(!prefix.contains(sk));
                match find_key::<u32, u32>(idf, s, Ghost(iv)) {
                    Some(j) => {
                        let c = idf[j].1;
                        assert(count_of(iv, sk) == c);
                        idf.set(j, (s.clone(), c + 1));
                        assert(count_views(idf@) =~= put(iv, sk, (c + 1) as u32));
                    },
                    None => {
                        idf.push((s.clone(), 1));
                        assert(count_views(idf@) =~= put(iv, sk, 1u32));
                    },
                }
                tf.push((s.clone(), 1));
                assert(count_views(tf@) =~= put(tv, sk, 1u32));
            },
        }
        i = i + 1;
    }
    assert(sv.take(stems@.len() as int) =~= sv);
    tf
}

/// The search terms of a query: its white-space separated words, each
/// stemmed as Russian and the result as English.
pub open spec fn query_terms_of(q: Seq<char>) -> Seq<Seq<char>> {
    words_of(q).map_values(|w: Seq<char>| stem_of(Language::English, stem_of(Language::Russian, w)))
}

/// The search terms of the query `search` (see `query_terms_of`).
pub fn search_terms(search: &str) -> (r: Vec<String>)
    ensures
        string_views(r@) == query_terms_of(search@),
{
    let chars = chars_of(search);
    let words = leading_words(&chars, chars.len());
    proof {
        lemma_words_of_len(chars@);
    }
    let ghost wv = words_of(search@);
    assert(char_vec_views(words@) == wv);
    let mut r: Vec<String> = Vec::new();
    let mut i: usize = 0;
    while i < words.len()
        invariant
            i <= words@.len(),
            char_vec_views(words@) == wv,
            wv == words_of(search@),
            string_views(r@) == query_terms_of(search@).take(i as int),
        decreases words@.len() - i,
    {
        assert(char_vec_views(words@)[i as int] == words@[i as int]@);
        let w = string_from_chars(&words[i]);
        let ru = stem(Language::Russian, w.as_str());
        let term = stem(Language::English, ru.as_str());
        let ghost before = string_views(r@);
        let ghost tv = term@;
        assert(w@ == wv[i as int]);
        assert(query_terms_of(search@)[i as int] == tv);
        r.push(term);
        assert(string_views(r@) =~= before.push(tv));
        assert(string_views(r@) =~= query_terms_of(search@).take(i + 1));
        i = i + 1;
    }
    assert(query_terms_of(search@).take(words@.len() as int) =~= query_terms_of(search@));
    r
}

/// The query for exactly the word `w`.
pub open spec fn word_query(w: Seq<char>) -> SpecLexem {
    SpecLexem::WithFilter(SpecFilter::Word(w))
}

/// A stored page is found by a query for any of its words: its first box
/// lets the query through without the page text, and the box of the word's
/// cluster lets it through with the page text, so the page is confirmed.
/// The words are not empty and hold no white space.
pub proof fn lemma_page_found_by_its_words(ws: Seq<Seq<char>>, i: int)
    requires
        0 <= i < ws.len(),
        forall|j: int| 0 <= j < ws.len() ==> #[trigger] ws[j].len() > 0,
        forall|j: int, k: int| 0 <= j < ws.len() && 0 <= k < ws[j].len() ==> !unicode_white_space(
            #[trigger] ws[j][k],
        ),
        word_offset(ws, ws.len() as int) <= u64::MAX,
    ensures
        eval_spec(word_query(ws[i]), hash_line_of(ws)[0], None),
        eval_spec(word_query(ws[i]), hash_line_of(ws)[1 + i / 32], Some(vstd::utf8::encode_utf8(spaced(ws)))),
        confirmed(hash_line_of(ws), word_query(ws[i]), vstd::utf8::encode_utf8(spaced(ws))),
{
    let line = hash_line_of(ws);
    let w = ws[i];
    let c = i / 32;
    let m = 32 * c;
    lemma_page_boxes_hold_words(ws, i);
    assert(0 <= c < cluster_count(ws.len() as int)) by (nonlinear_arith)
        requires
            0 <= i < ws.len(),
            c == i / 32,
            cluster_count(ws.len() as int) == (ws.len() + 31) / 32,
    ;
    assert(0 <= m <= i < m + 32) by (nonlinear_arith)
        requires
            0 <= i,
            c == i / 32,
            m == 32 * c,
    ;
    lemma_cluster_position(ws, c);
    let bytes = vstd::utf8::encode_utf8(spaced(ws));
    let head = ws.take(m);
    let tail = ws.skip(m);
    assert(head + tail =~= ws);
    lemma_spaced_concat(head, tail);
    lemma_encode_concat(spaced(head), spaced(tail));
    let ptr = line[c + 1].ptr;
    assert(ptr == word_offset(ws, m));
    assert(bytes.skip(ptr as int) =~= vstd::utf8::encode_utf8(spaced(tail)));
    vstd::utf8::encode_utf8_decode_utf8(spaced(tail));
    assert(text_at(bytes, ptr) == spaced(tail));
    assert forall|j: int| 0 <= j < tail.len() implies #[trigger] tail[j].len() > 0 by {
        assert(tail[j] == ws[j + m]);
    }
    assert forall|j: int, k: int| 0 <= j < tail.len() && 0 <= k < tail[j].len() implies !unicode_white_space(
        #[trigger] tail[j][k],
    ) by {
        assert(tail[j] == ws[j + m]);
    }
    lemma_words_of_spaced(tail);
    assert(words_of(text_at(bytes, ptr)) == tail);
    assert(tail[i - m] == w);
    assert(i - m < 32);
    assert(crate::index::fprocessing::word_passes(SpecFilter::Word(w), tail[i - m]));
    assert(eval_spec(word_query(w), line[c + 1], Some(bytes)));
    assert(1 <= c + 1 < line.len());
}

/// An entry whose first box lets a query through is among the candidates
/// of the query in every longer run of entries.
proof fn lemma_candidate_listed(
    es: Seq<(Seq<char>, Seq<HashBoxView>)>,
    lx: SpecLexem,
    k: int,
    n: int,
)
    requires
        0 <= k < n <= es.len(),
        eval_spec(lx, es[k].1[0], None),
    ensures
        candidates_upto(es, lx, n).contains(k as usize),
    decreases n,
{
    let prev = candidates_upto(es, lx, n - 1);
    if k == n - 1 {
        assert(candidates_upto(es, lx, n) == prev.push(k as usize));
        assert(candidates_upto(es, lx, n)[prev.len() as int] == k as usize);
    } else {
        lemma_candidate_listed(es, lx, k, n - 1);
        let j = choose|j: int| 0 <= j < prev.len() && prev[j] == k as usize;
        if eval_spec(lx, es[n - 1].1[0], None) {
            assert(candidates_upto(es, lx, n)[j] == k as usize);
        } else {
            assert(candidates_upto(es, lx, n)[j] == k as usize);
        }
    }
}

/// A page stored in the index under `name` is found by a query for any of
/// its words: it is among the query's candidates, and its boxes confirm the
/// query with its text. The words are not empty and hold no white space.
pub proof fn lemma_stored_page_found(
    es: Seq<(Seq<char>, Seq<HashBoxView>)>,
    name: Seq<char>,
    ws: Seq<Seq<char>>,
    i: int,
)
    requires
        0 <= i < ws.len(),
        forall|j: int| 0 <= j < ws.len() ==> #[trigger] ws[j].len() > 0,
        forall|j: int, k: int| 0 <= j < ws.len() && 0 <= k < ws[j].len() ==> !unicode_white_space(
            #[trigger] ws[j][k],
        ),
        word_offset(ws, ws.len() as int) <= u64::MAX,
    ensures
        ({
            let stored = entries_after_add(es, name, hash_line_of(ws));
            exists|k: int|
                0 <= k < stored.len() && #[trigger] stored[k] == (name, hash_line_of(ws))
                    && candidates_upto(stored, word_query(ws[i]), stored.len() as int).contains(k as usize)
                    && confirmed(stored[k].1, word_query(ws[i]), vstd::utf8::encode_utf8(spaced(ws)))
        }),
{
    let line = hash_line_of(ws);
    let lx = word_query(ws[i]);
    let bytes = vstd::utf8::encode_utf8(spaced(ws));
    lemma_page_found_by_its_words(ws, i);
    lemma_stored_line_found(es, name, line, lx, bytes);
}

/// Where the first box of a page lets a query through and its boxes confirm
/// it, the page stored under `name` is a candidate and is confirmed.
proof fn lemma_stored_line_found(
    es: Seq<(Seq<char>, Seq<HashBoxView>)>,
    name: Seq<char>,
    line: Seq<HashBoxView>,
    lx: SpecLexem,
    bytes: Seq<u8>,
)
    requires
        line.len() > 0,
        eval_spec(lx, line[0], None),
        confirmed(line, lx, bytes),
    ensures
        ({
            let stored = entries_after_add(es, name, line);
            exists|k: int|
                0 <= k < stored.len() && #[trigger] stored[k] == (name, line) && candidates_upto(
                    stored,
                    lx,
                    stored.len() as int,
                ).contains(k as usize) && confirmed(stored[k].1, lx, bytes)
        }),
{
    let stored = entries_after_add(es, name, line);
    let k = lemma_added_entry(es, name, line);
    lemma_candidate_listed(stored, lx, k, stored.len() as int);
}

} // verus!
