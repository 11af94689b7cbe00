//! Evaluation of a query against the signature boxes of a page, and, where
//! the page text is at hand, against the words themselves.

use vstd::prelude::*;
use vstd::slice::slice_subrange;
use vstd::utf8::*;

use crate::index::hash::{
    byte_len, lemma_added_word_is_held, may_end_with, may_hold_word, may_start_with, with_word, HashBox,
    HashBoxView,
};
use crate::index::lexem::{Lexem, SpecLexem};
use crate::text::spaced;
use crate::unicode::{chars_of, is_whitespace, same_chars, str_from_utf8, unicode_white_space};

verus! {

/// A filter on one word, as a query states it.
#[derive(Debug)]
pub enum Filter {
    StartsWith(String),
    EndsWith(String),
    Word(String),
}

/// The model of a `Filter`: the same filter over the characters of its word.
pub enum SpecFilter {
    StartsWith(Seq<char>),
    EndsWith(Seq<char>),
    Word(Seq<char>),
}

impl View for Filter {
    type V = SpecFilter;

    open spec fn view(&self) -> SpecFilter {
        match self {
            Filter::StartsWith(s) => SpecFilter::StartsWith(s@),
            Filter::EndsWith(s) => SpecFilter::EndsWith(s@),
            Filter::Word(s) => SpecFilter::Word(s@),
        }
    }
}

impl Filter {
    /// The word of the filter.
    pub fn word(&self) -> (r: &String)
        ensures
            r@ == filter_word(self@),
    {
        match self {
            Filter::StartsWith(s) => s,
            Filter::EndsWith(s) => s,
            Filter::Word(s) => s,
        }
    }
}

/// The word of a filter.
pub open spec fn filter_word(f: SpecFilter) -> Seq<char> {
    match f {
        SpecFilter::StartsWith(s) => s,
        SpecFilter::EndsWith(s) => s,
        SpecFilter::Word(s) => s,
    }
}

/// Splitting state after the characters `s`: the words completed and the word being read.
pub open spec fn split_state(s: Seq<char>) -> (Seq<Seq<char>>, Seq<char>)
    decreases s.len(),
{
    if s.len() == 0 {
        (seq![], seq![])
    } else {
        let (done, cur) = split_state(s.drop_last());
        let c = s.last();
        if unicode_white_space(c) {
            if cur.len() > 0 {
                (done.push(cur), seq![])
            } else {
                (done, cur)
            }
        } else {
            (done, cur.push(c))
        }
    }
}

/// The maximal runs of characters without white space in `s`, in order:
/// the pieces that `str::split_whitespace` gives.
pub open spec fn words_of(s: Seq<char>) -> Seq<Seq<char>> {
    let (done, cur) = split_state(s);
    if cur.len() > 0 {
        done.push(cur)
    } else {
        done
    }
}

/// Whether the word `x` passes the filter `f`: it starts with, ends with, or is the filter's word.
pub open spec fn word_passes(f: SpecFilter, x: Seq<char>) -> bool {
    match f {
        SpecFilter::StartsWith(p) => p.len() <= x.len() && x.take(p.len() as int) == p,
        SpecFilter::EndsWith(p) => p.len() <= x.len() && x.skip(x.len() - p.len()) == p,
        SpecFilter::Word(w) => x == w,
    }
}

/// Whether the box's signatures let the filter's word through.
pub open spec fn signature_passes(f: SpecFilter, h: HashBoxView) -> bool {
    match f {
        SpecFilter::StartsWith(p) => may_start_with(h, p),
        SpecFilter::EndsWith(p) => may_end_with(h, p),
        SpecFilter::Word(w) => may_hold_word(h, w),
    }
}

/// The text that the bytes `mem` hold from position `ptr` on.
pub open spec fn text_at(mem: Seq<u8>, ptr: u64) -> Seq<char> {
    decode_utf8(mem.skip(ptr as int))
}

/// Whether one of the first `n` words of `text` passes the filter.
pub open spec fn some_leading_word_passes(f: SpecFilter, text: Seq<char>, n: nat) -> bool {
    exists|k: int| 0 <= k < n && k < words_of(text).len() && word_passes(f, #[trigger] words_of(text)[k])
}

/// A filter holds for a box: its signature passes and, where the page text
/// is given, one of the box's 32 words from the box's position on passes it.
pub open spec fn filter_holds(f: SpecFilter, h: HashBoxView, mem: Option<Seq<u8>>) -> bool {
    signature_passes(f, h) && match mem {
        None => true,
        Some(m) => some_leading_word_passes(f, text_at(m, h.ptr), 32),
    }
}

/// A filter can be checked: its word has at least four bytes and, where the
/// signature passes and the page text is given, the box's position lies in
/// the text and the text from there on is valid UTF-8.
pub open spec fn filter_safe(f: SpecFilter, h: HashBoxView, mem: Option<Seq<u8>>) -> bool {
    &&& byte_len(filter_word(f)) >= 4
    &&& signature_passes(f, h) ==> match mem {
        None => true,
        Some(m) => h.ptr <= m.len() && valid_utf8(m.skip(h.ptr as int)),
    }
}

/// The value of a query for a box.
pub open spec fn eval_spec(lx: SpecLexem, h: HashBoxView, mem: Option<Seq<u8>>) -> bool
    decreases lx,
{
    match lx {
        SpecLexem::And(l, r) => eval_spec(*l, h, mem) && eval_spec(*r, h, mem),
        SpecLexem::Or(l, r) => eval_spec(*l, h, mem) || eval_spec(*r, h, mem),
        SpecLexem::Not(x) => !eval_spec(*x, h, mem),
        SpecLexem::WithFilter(f) => filter_holds(f, h, mem),
    }
}

/// A query can be evaluated for a box: every filter that the evaluation
/// reaches, from left to right and stopping as soon as the value of an
/// `&` or an `|` is known, can be checked.
pub open spec fn eval_safe(lx: SpecLexem, h: HashBoxView, mem: Option<Seq<u8>>) -> bool
    decreases lx,
{
    match lx {
        SpecLexem::And(l, r) => eval_safe(*l, h, mem) && (eval_spec(*l, h, mem) ==> eval_safe(
            *r,
            h,
            mem,
        )),
        SpecLexem::Or(l, r) => eval_safe(*l, h, mem) && (!eval_spec(*l, h, mem) ==> eval_safe(
            *r,
            h,
            mem,
        )),
        SpecLexem::Not(x) => eval_safe(*x, h, mem),
        SpecLexem::WithFilter(f) => filter_safe(f, h, mem),
    }
}

/// The depth of a query tree.
pub open spec fn depth(lx: SpecLexem) -> nat
    decreases lx,
{
    match lx {
        SpecLexem::And(l, r) => 1 + if depth(*l) >= depth(*r) {
            depth(*l)
        } else {
            depth(*r)
        },
        SpecLexem::Or(l, r) => 1 + if depth(*l) >= depth(*r) {
            depth(*l)
        } else {
            depth(*r)
        },
        SpecLexem::Not(x) => 1 + depth(*x),
        SpecLexem::WithFilter(_) => 0,
    }
}

pub open spec fn mem_model(mem: Option<&[u8]>) -> Option<Seq<u8>> {
    match mem {
        Some(m) => Some(m@),
        None => None,
    }
}

/// The check of a filter with the page text passes only where the check
/// without it passes: the text can only narrow the signature check.
pub proof fn lemma_text_check_narrows(f: SpecFilter, h: HashBoxView, m: Seq<u8>)
    ensures
        filter_holds(f, h, Some(m)) ==> filter_holds(f, h, None),
{
}

/// An `|` query holds exactly where one of its two operands holds, so the
/// order of the operands does not matter; an `&` query holds where both
/// hold; and a `~` over an `|` holds where neither operand holds.
pub proof fn lemma_connectives(l: SpecLexem, r: SpecLexem, h: HashBoxView, mem: Option<Seq<u8>>)
    ensures
        eval_spec(SpecLexem::Or(Box::new(l), Box::new(r)), h, mem) == (eval_spec(l, h, mem)
            || eval_spec(r, h, mem)),
        eval_spec(SpecLexem::Or(Box::new(l), Box::new(r)), h, mem) == eval_spec(
            SpecLexem::Or(Box::new(r), Box::new(l)),
            h,
            mem,
        ),
        eval_spec(SpecLexem::And(Box::new(l), Box::new(r)), h, mem) == (eval_spec(l, h, mem)
            && eval_spec(r, h, mem)),
        eval_spec(SpecLexem::Not(Box::new(SpecLexem::Or(Box::new(l), Box::new(r)))), h, mem)
            == (!eval_spec(l, h, mem) && !eval_spec(r, h, mem)),
{
}

/// A word added to a box makes every query `... | equals <word>` hold for
/// the box, checked without the page text, whatever the left operand is.
pub proof fn lemma_added_word_answers_or(l: SpecLexem, b: HashBoxView, w: Seq<char>)
    ensures
        eval_spec(
            SpecLexem::Or(Box::new(l), Box::new(SpecLexem::WithFilter(SpecFilter::Word(w)))),
            with_word(b, w),
            None,
        ),
{
    lemma_added_word_is_held(b, w);
    let f = SpecFilter::Word(w);
    assert(filter_holds(f, with_word(b, w), None));
    assert(eval_spec(SpecLexem::WithFilter(f), with_word(b, w), None));
}

/// A query holds no `~`.
pub open spec fn negation_free(lx: SpecLexem) -> bool
    decreases lx,
{
    match lx {
        SpecLexem::And(l, r) => negation_free(*l) && negation_free(*r),
        SpecLexem::Or(l, r) => negation_free(*l) && negation_free(*r),
        SpecLexem::Not(_) => false,
        SpecLexem::WithFilter(_) => true,
    }
}

/// A query without `~` that holds for a box with the page text holds for it
/// without the text: the signatures alone never turn away a box that the
/// words let through.
pub proof fn lemma_eval_without_text(lx: SpecLexem, h: HashBoxView, m: Seq<u8>)
    requires
        negation_free(lx),
    ensures
        eval_spec(lx, h, Some(m)) ==> eval_spec(lx, h, None),
    decreases lx,
{
    match lx {
        SpecLexem::And(l, r) => {
            lemma_eval_without_text(*l, h, m);
            lemma_eval_without_text(*r, h, m);
        },
        SpecLexem::Or(l, r) => {
            lemma_eval_without_text(*l, h, m);
            lemma_eval_without_text(*r, h, m);
        },
        SpecLexem::Not(_) => {},
        SpecLexem::WithFilter(f) => {
            lemma_text_check_narrows(f, h, m);
        },
    }
}

/// Splitting stays within a word while no white space comes.
proof fn lemma_split_state_word(p: Seq<char>, x: Seq<char>)
    requires
        forall|k: int| 0 <= k < x.len() ==> !unicode_white_space(#[trigger] x[k]),
    ensures
        split_state(p + x) == (split_state(p).0, split_state(p).1 + x),
    decreases x.len(),
{
    if x.len() == 0 {
        assert(p + x =~= p);
        assert(split_state(p).1 + x =~= split_state(p).1);
    } else {
        let x0 = x.drop_last();
        assert forall|k: int| 0 <= k < x0.len() implies !unicode_white_space(#[trigger] x0[k]) by {
            assert(x0[k] == x[k]);
        }
        lemma_split_state_word(p, x0);
        assert((p + x).drop_last() =~= p + x0);
        assert((p + x).last() == x[x.len() - 1]);
        assert((split_state(p).1 + x0).push(x.last()) =~= split_state(p).1 + x);
    }
}

/// Words, each followed by a space, split back into the same words, where
/// no word is empty or holds white space.
pub proof fn lemma_words_of_spaced(xs: Seq<Seq<char>>)
    requires
        forall|j: int| 0 <= j < xs.len() ==> #[trigger] xs[j].len() > 0,
        forall|j: int, k: int| 0 <= j < xs.len() && 0 <= k < xs[j].len() ==> !unicode_white_space(
            #[trigger] xs[j][k],
        ),
    ensures
        split_state(spaced(xs)) == (xs, Seq::<char>::empty()),
        words_of(spaced(xs)) == xs,
    decreases xs.len(),
{
    if xs.len() == 0 {
        assert(split_state(Seq::<char>::empty()) == (Seq::<Seq<char>>::empty(), Seq::<char>::empty()));
    } else {
        let prev = xs.drop_last();
        let x = xs.last();
        assert forall|j: int| 0 <= j < prev.len() implies #[trigger] prev[j].len() > 0 by {
            assert(prev[j] == xs[j]);
        }
        assert forall|j: int, k: int| 0 <= j < prev.len() && 0 <= k < prev[j].len() implies !unicode_white_space(
            #[trigger] prev[j][k],
        ) by {
            assert(prev[j] == xs[j]);
        }
        lemma_words_of_spaced(prev);
        assert(xs[xs.len() - 1] == x);
        assert forall|k: int| 0 <= k < x.len() implies !unicode_white_space(#[trigger] x[k]) by {
            assert(xs[xs.len() - 1][k] == x[k]);
        }
        let p = spaced(prev);
        lemma_split_state_word(p, x);
        assert(Seq::<char>::empty() + x =~= x);
        let full = spaced(xs);
        assert(full =~= (p + x).push(' '));
        assert(full.drop_last() =~= p + x);
        assert(prev.push(x) =~= xs);
    }
}

/// A text has no more white-space separated words than characters.
pub proof fn lemma_words_of_len(s: Seq<char>)
    ensures
        words_of(s).len() <= s.len(),
{
    lemma_split_state_len(s);
}

proof fn lemma_split_state_len(s: Seq<char>)
    ensures
        split_state(s).0.len() + (if split_state(s).1.len() > 0 {
            1int
        } else {
            0int
        }) <= s.len(),
    decreases s.len(),
{
    if s.len() > 0 {
        lemma_split_state_len(s.drop_last());
    }
}

/// The first `n` elements of `s`, or all of them where there are fewer.
pub open spec fn first_n<A>(s: Seq<A>, n: int) -> Seq<A> {
    if n < s.len() {
        s.take(n)
    } else {
        s
    }
}

pub open spec fn char_vec_views(v: Seq<Vec<char>>) -> Seq<Seq<char>> {
    v.map_values(|w: Vec<char>| w@)
}

pub fn load_initial() {
}

/// Answers no query: the list of pages is always empty.
pub fn query(lx: Lexem) -> (r: Vec<String>)
    ensures
        r@.len() == 0,
{
    let names: Vec<String> = Vec::new();
    names
}

/// The value of the query `lx` for the box `h`, checking words in the page
/// text `mem` where it is given.
pub fn eval(lx: &Lexem, h: &HashBox, mem: Option<&[u8]>) -> (r: bool)
    requires
        eval_safe(lx@, h@, mem_model(mem)),
    ensures
        r == eval_spec(lx@, h@, mem_model(mem)),
        lx@ matches SpecLexem::Or(a, b) ==> r == (eval_spec(*a, h@, mem_model(mem)) || eval_spec(
            *b,
            h@,
            mem_model(mem),
        )),
    decreases depth(lx@), 1nat,
{
    match lx {
        Lexem::And(l, r) => eval_and(&**l, &**r, h, mem),
        Lexem::Or(l, r) => eval_or(&**l, &**r, h, mem),
        Lexem::Not(lx2) => eval_not(&**lx2, h, mem),
        Lexem::WithFilter(f) => apply_filter(f, h, mem),
    }
}

/// The value of the query `lx` for the box `h`, or `None` where the query
/// cannot be evaluated for it.
pub fn try_eval(lx: &Lexem, h: &HashBox, mem: Option<&[u8]>) -> (r: Option<bool>)
    ensures
        r is Some <==> eval_safe(lx@, h@, mem_model(mem)),
        r matches Some(v) ==> v == eval_spec(lx@, h@, mem_model(mem)),
{
    if eval_is_safe(lx, h, mem) {
        Some(eval(lx, h, mem))
    } else {
        None
    }
}

fn eval_is_safe(lx: &Lexem, h: &HashBox, mem: Option<&[u8]>) -> (r: bool)
    ensures
        r == eval_safe(lx@, h@, mem_model(mem)),
    decreases lx,
{
    match lx {
        Lexem::And(l, r) => {
            if !eval_is_safe(&**l, h, mem) {
                false
            } else if !eval(&**l, h, mem) {
                true
            } else {
                eval_is_safe(&**r, h, mem)
            }
        },
        Lexem::Or(l, r) => {
            if !eval_is_safe(&**l, h, mem) {
                false
            } else if eval(&**l, h, mem) {
                true
            } else {
                eval_is_safe(&**r, h, mem)
            }
        },
        Lexem::Not(x) => eval_is_safe(&**x, h, mem),
        Lexem::WithFilter(f) => filter_is_safe(f, h, mem),
    }
}

fn filter_is_safe(f: &Filter, h: &HashBox, mem: Option<&[u8]>) -> (r: bool)
    ensures
        r == filter_safe(f@, h@, mem_model(mem)),
{
    let w = f.word();
    if w.as_str().as_bytes().len() < 4 {
        return false;
    }
    let passes = match f {
        Filter::StartsWith(p) => h.match_starts_with(p.as_str()),
        Filter::EndsWith(p) => h.match_ends_with(p.as_str()),
        Filter::Word(p) => h.match_hashes(p.as_str()),
    };
    if !passes {
        return true;
    }
    match mem {
        None => true,
        Some(memory) => {
            let ptr = h.get_ptr();
            if ptr > memory.len() as u64 {
                false
            } else {
                let rest = slice_subrange(memory, ptr as usize, memory.len());
                assert(rest@ == memory@.skip(ptr as int));
                str_from_utf8(rest).is_some()
            }
        },
    }
}

fn eval_and(left: &Lexem, right: &Lexem, h: &HashBox, mem: Option<&[u8]>) -> (r: bool)
    requires
        eval_safe(left@, h@, mem_model(mem)),
        eval_spec(left@, h@, mem_model(mem)) ==> eval_safe(right@, h@, mem_model(mem)),
    ensures
        r == (eval_spec(left@, h@, mem_model(mem)) && eval_spec(right@, h@, mem_model(mem))),
    decreases 1 + if depth(left@) >= depth(right@) {
        depth(left@)
    } else {
        depth(right@)
    }, 0nat,
{
    let left_result: bool = eval(left, h, mem);
    if !left_result {
        return false;
    }
    left_result && eval(right, h, mem)
}

fn eval_not(lx: &Lexem, h: &HashBox, mem: Option<&[u8]>) -> (r: bool)
    requires
        eval_safe(lx@, h@, mem_model(mem)),
    ensures
        r == !eval_spec(lx@, h@, mem_model(mem)),
    decreases 1 + depth(lx@), 0nat,
{
    !eval(lx, h, mem)
}

fn eval_or(left: &Lexem, right: &Lexem, h: &HashBox, mem: Option<&[u8]>) -> (r: bool)
    requires
        eval_safe(left@, h@, mem_model(mem)),
        !eval_spec(left@, h@, mem_model(mem)) ==> eval_safe(right@, h@, mem_model(mem)),
    ensures
        r == (eval_spec(left@, h@, mem_model(mem)) || eval_spec(right@, h@, mem_model(mem))),
    decreases 1 + if depth(left@) >= depth(right@) {
        depth(left@)
    } else {
        depth(right@)
    }, 0nat,
{
    let left_result: bool = eval(left, h, mem);
    if left_result {
        return true;
    }
    left_result || eval(right, h, mem)
}

/// Whether the filter `f` holds for the box `h`, checking the words of the
/// page text `mem` where it is given. The filter must be checkable.
pub fn apply_filter(f: &Filter, h: &HashBox, mem: Option<&[u8]>) -> (r: bool)
    requires
        filter_safe(f@, h@, mem_model(mem)),
    ensures
        r == filter_holds(f@, h@, mem_model(mem)),
{
    let matched = match f {
        Filter::EndsWith(ew) => h.match_ends_with(ew.as_str()),
        Filter::StartsWith(sw) => h.match_starts_with(sw.as_str()),
        Filter::Word(w) => h.match_hashes(w.as_str()),
    };
    if matched {
        match mem {
            None => return matched,
            Some(memory) => return leading_words_pass(f, memory, h.get_ptr()),
        }
    }
    return matched;
}

/// Whether one of the first 32 words of the text that `memory` holds from
/// `ptr` on passes the filter.
fn leading_words_pass(f: &Filter, memory: &[u8], ptr: u64) -> (r: bool)
    requires
        ptr <= memory@.len(),
        valid_utf8(memory@.skip(ptr as int)),
    ensures
        r == some_leading_word_passes(f@, text_at(memory@, ptr), 32),
{
    let rest = slice_subrange(memory, ptr as usize, memory.len());
    assert(rest@ == memory@.skip(ptr as int));
    let row = match str_from_utf8(rest) {
        Some(s) => s,
        None => {
            proof {
                assert(false);
            }
            return false;
        },
    };
    let chars = chars_of(row);
    let words = leading_words(&chars, HashBox::size());
    let target = chars_of(f.word().as_str());
    let ghost ws = words_of(chars@);
    let mut k: usize = 0;
    while k < words.len()
        invariant
            k <= words@.len(),
            char_vec_views(words@) == first_n(ws, 32),
            ws == words_of(text_at(memory@, ptr)),
            target@ == filter_word(f@),
            forall|j: int| 0 <= j < k ==> !word_passes(f@, #[trigger] ws[j]),
        decreases words@.len() - k,
    {
        assert(char_vec_views(words@).len() == words@.len());
        assert(char_vec_views(words@)[k as int] == words@[k as int]@);
        assert(k < ws.len() && k < 32);
        assert(first_n(ws, 32)[k as int] == ws[k as int]);
        let passes = match f {
            Filter::StartsWith(_) => is_prefix_of(&target, &words[k]),
            Filter::EndsWith(_) => is_suffix_of(&target, &words[k]),
            Filter::Word(_) => same_chars(&words[k], &target),
        };
        if passes {
            assert(ws[k as int] == words@[k as int]@);
            return true;
        }
        k = k + 1;
    }
    assert forall|j: int| 0 <= j < 32 && j < ws.len() implies !word_passes(f@, #[trigger] ws[j]) by {
        assert(char_vec_views(words@).len() == words@.len());
        assert(j < first_n(ws, 32).len());
        assert(j < words@.len());
    }
    false
}

/// The first `n` white-space separated words of `chars`.
pub(crate) fn leading_words(chars: &Vec<char>, n: usize) -> (r: Vec<Vec<char>>)
    ensures
        char_vec_views(r@) == first_n(words_of(chars@), n as int),
{
    let mut done: Vec<Vec<char>> = Vec::new();
    let mut cur: Vec<char> = Vec::new();
    let mut i: usize = 0;
    assert(chars@.take(0) =~= seq![]);
    assert(char_vec_views(done@) =~= seq![]);
    while i < chars.len()
        invariant
            i <= chars@.len(),
            char_vec_views(done@) == first_n(split_state(chars@.take(i as int)).0, n as int),
            cur@ == split_state(chars@.take(i as int)).1,
        decreases chars@.len() - i,
    {
        let c = chars[i];
        assert(chars@.take(i + 1).drop_last() =~= chars@.take(i as int));
        let ghost d = split_state(chars@.take(i as int)).0;
        let ghost before = done@;
        if is_whitespace(c) {
            if cur.len() > 0 {
                let ghost cv = cur@;
                if done.len() < n {
                    done.push(cur);
                    assert(char_vec_views(done@) =~= char_vec_views(before).push(cv));
                    assert(first_n(d.push(cv), n as int) =~= first_n(d, n as int).push(cv));
                } else {
                    assert(first_n(d.push(cv), n as int) =~= first_n(d, n as int));
                }
                cur = Vec::new();
            }
        } else {
            cur.push(c);
        }
        i = i + 1;
    }
    assert(chars@.take(chars@.len() as int) =~= chars@);
    let ghost d = split_state(chars@).0;
    if cur.len() > 0 {
        let ghost cv = cur@;
        let ghost before = done@;
        if done.len() < n {
            done.push(cur);
            assert(char_vec_views(done@) =~= char_vec_views(before).push(cv));
            assert(first_n(d.push(cv), n as int) =~= first_n(d, n as int).push(cv));
        } else {
            assert(first_n(d.push(cv), n as int) =~= first_n(d, n as int));
        }
    }
    done
}

/// Whether `p` is a prefix of `x`.
fn is_prefix_of(p: &Vec<char>, x: &Vec<char>) -> (r: bool)
    ensures
        r == (p@.len() <= x@.len() && x@.take(p@.len() as int) == p@),
{
    if p.len() > x.len() {
        return false;
    }
    let mut i: usize = 0;
    while i < p.len()
        invariant
            p@.len() <= x@.len(),
            i <= p@.len(),
            forall|j: int| 0 <= j < i ==> x@[j] == p@[j],
        decreases p@.len() - i,
    {
        if x[i] != p[i] {
            assert(x@.take(p@.len() as int)[i as int] != p@[i as int]);
            return false;
        }
        i = i + 1;
    }
    assert(x@.take(p@.len() as int) =~= p@);
    true
}

/// Whether `p` is a suffix of `x`.
fn is_suffix_of(p: &Vec<char>, x: &Vec<char>) -> (r: bool)
    ensures
        r == (p@.len() <= x@.len() && x@.skip(x@.len() - p@.len()) == p@),
{
    if p.len() > x.len() {
        return false;
    }
    let xn = x.len();
    let off = xn - p.len();
    let mut i: usize = 0;
    while i < p.len()
        invariant
            xn == x@.len(),
            p@.len() <= x@.len(),
            off == x@.len() - p@.len(),
            i <= p@.len(),
            forall|j: int| 0 <= j < i ==> x@[off + j] == p@[j],
        decreases p@.len() - i,
    {
        assert(off + i < xn);
        if x[off + i] != p[i] {
            assert(x@.skip(off as int)[i as int] != p@[i as int]);
            return false;
        }
        i = i + 1;
    }
    assert(x@.skip(off as int) =~= p@);
    true
}

} // verus!
