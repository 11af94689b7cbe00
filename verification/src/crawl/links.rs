//! Rules on links: which links name resources that are not pages, under
//! which file name a page is stored, and the lines of the index file that
//! records the pages.

use vstd::prelude::*;

use crate::index::fprocessing::char_vec_views;
use crate::text::{
    before_first, lemma_split_on_nonempty, drop_bytes, ends_with, ends_with_chars, split_chars, split_on, sub_chars, trim_end,
    trimmed_end, utf8_width,
};
use crate::unicode::{chars_of, string_from_chars};

verus! {

/// `s` with every `/` and `?` replaced by `.`.
pub open spec fn dotted(s: Seq<char>) -> Seq<char> {
    s.map_values(|c: char| if c == '/' || c == '?' { '.' } else { c })
}

/// The extension given to stored pages.
pub open spec fn txt_suffix() -> Seq<char> {
    seq!['.', 't', 'x', 't']
}

/// The file name of the page at `link`: in the link with `/` and `?`
/// replaced by `.`, the text from byte 8 (past `https://`) up to the first
/// `#`, without trailing white space, with `.txt` appended. `None` where
/// byte 8 is not on a character or lies past the first `#` or past the end.
pub open spec fn page_file_name_of(link: Seq<char>) -> Option<Seq<char>> {
    match drop_bytes(before_first(dotted(link), '#'), 8) {
        Some(rest) => Some(trim_end(rest) + txt_suffix()),
        None => None,
    }
}

/// The link names a style sheet, a script, a document, a font, a binary
/// module or an image: it ends with one of these extensions.
pub open spec fn skipped_resource(link: Seq<char>) -> bool {
    ||| ends_with(link, seq!['c', 's', 's'])
    ||| ends_with(link, seq!['j', 's'])
    ||| ends_with(link, seq!['p', 'd', 'f'])
    ||| ends_with(link, seq!['t', 't', 'f'])
    ||| ends_with(link, seq!['w', 'a', 's', 'm'])
    ||| ends_with(link, seq!['j', 'p', 'g'])
    ||| ends_with(link, seq!['p', 'n', 'g'])
    ||| ends_with(link, seq!['b', 'm', 'p'])
    ||| ends_with(link, seq!['i', 'c', 'o'])
}

/// A text that ends with `e` has `e`'s last character as its own.
proof fn lemma_ends_with_last(s: Seq<char>, e: Seq<char>)
    requires
        ends_with(s, e),
        e.len() > 0,
    ensures
        s.len() >= e.len(),
        s.last() == e.last(),
{
    assert(s.skip(s.len() - e.len())[e.len() - 1] == s[s.len() - 1]);
}

/// Whether a text ends with `e` does not depend on what stands before its
/// last `e.len()` characters.
proof fn lemma_ends_with_front(pre: Seq<char>, s: Seq<char>, e: Seq<char>)
    requires
        e.len() <= s.len(),
    ensures
        ends_with(pre + s, e) == ends_with(s, e),
{
    assert((pre + s).skip((pre + s).len() - e.len()) =~= s.skip(s.len() - e.len()));
}

/// Only the ending of a link makes it a skipped resource: a skipped link
/// has at least two characters and its last one is `s`, `f`, `m`, `g`, `p`
/// or `o`, whatever occurs earlier in it.
pub proof fn lemma_skipped_by_ending(link: Seq<char>)
    ensures
        skipped_resource(link) ==> link.len() >= 2 && {
            let c = link.last();
            c == 's' || c == 'f' || c == 'm' || c == 'g' || c == 'p' || c == 'o'
        },
{
    if ends_with(link, seq!['c', 's', 's']) {
        lemma_ends_with_last(link, seq!['c', 's', 's']);
    }
    if ends_with(link, seq!['j', 's']) {
        lemma_ends_with_last(link, seq!['j', 's']);
    }
    if ends_with(link, seq!['p', 'd', 'f']) {
        lemma_ends_with_last(link, seq!['p', 'd', 'f']);
    }
    if ends_with(link, seq!['t', 't', 'f']) {
        lemma_ends_with_last(link, seq!['t', 't', 'f']);
    }
    if ends_with(link, seq!['w', 'a', 's', 'm']) {
        lemma_ends_with_last(link, seq!['w', 'a', 's', 'm']);
    }
    if ends_with(link, seq!['j', 'p', 'g']) {
        lemma_ends_with_last(link, seq!['j', 'p', 'g']);
    }
    if ends_with(link, seq!['p', 'n', 'g']) {
        lemma_ends_with_last(link, seq!['p', 'n', 'g']);
    }
    if ends_with(link, seq!['b', 'm', 'p']) {
        lemma_ends_with_last(link, seq!['b', 'm', 'p']);
    }
    if ends_with(link, seq!['i', 'c', 'o']) {
        lemma_ends_with_last(link, seq!['i', 'c', 'o']);
    }
}

/// Whether a link is skipped is decided by its last four characters:
/// whatever stands before them plays no part.
pub proof fn lemma_skipping_ignores_front(pre: Seq<char>, link: Seq<char>)
    requires
        link.len() >= 4,
    ensures
        skipped_resource(pre + link) == skipped_resource(link),
{
    lemma_ends_with_front(pre, link, seq!['c', 's', 's']);
    lemma_ends_with_front(pre, link, seq!['j', 's']);
    lemma_ends_with_front(pre, link, seq!['p', 'd', 'f']);
    lemma_ends_with_front(pre, link, seq!['t', 't', 'f']);
    lemma_ends_with_front(pre, link, seq!['w', 'a', 's', 'm']);
    lemma_ends_with_front(pre, link, seq!['j', 'p', 'g']);
    lemma_ends_with_front(pre, link, seq!['p', 'n', 'g']);
    lemma_ends_with_front(pre, link, seq!['b', 'm', 'p']);
    lemma_ends_with_front(pre, link, seq!['i', 'c', 'o']);
}

/// The line of the index file for the page at `link` stored as `name`.
pub open spec fn index_line_of(link: Seq<char>, name: Seq<char>) -> Seq<char> {
    trim_end(link) + seq!['|'] + name + seq!['\n']
}

/// The entry of one index row: the text before its first `|` and the text
/// between its first and second `|`; `None` where the row has no `|`.
pub open spec fn row_entry(row: Seq<char>) -> Option<(Seq<char>, Seq<char>)> {
    let pieces = split_on(row, '|');
    if pieces.len() >= 2 {
        Some((pieces[0], pieces[1]))
    } else {
        None
    }
}

/// The entries of the index rows `rows`, read in order. An empty row ends
/// the reading where `stop_at_blank` holds and is passed over otherwise;
/// `None` where a row that is read has no entry.
pub open spec fn rows_entries(rows: Seq<Seq<char>>, stop_at_blank: bool) -> Option<Seq<(Seq<char>, Seq<char>)>>
    decreases rows.len(),
{
    if rows.len() == 0 {
        Some(seq![])
    } else if rows[0].len() == 0 {
        if stop_at_blank {
            Some(seq![])
        } else {
            rows_entries(rows.drop_first(), stop_at_blank)
        }
    } else {
        match row_entry(rows[0]) {
            None => None,
            Some(e) => match rows_entries(rows.drop_first(), stop_at_blank) {
                None => None,
                Some(es) => Some(seq![e] + es),
            },
        }
    }
}

/// The entries of an index file whose text is `content`, one row per line.
pub open spec fn index_entries_of(content: Seq<char>, stop_at_blank: bool) -> Option<Seq<(Seq<char>, Seq<char>)>> {
    rows_entries(split_on(content, '\n'), stop_at_blank)
}

proof fn lemma_before_first(s: Seq<char>, c: char, h: int)
    requires
        0 <= h <= s.len(),
        forall|j: int| 0 <= j < h ==> s[j] != c,
        h == s.len() || s[h] == c,
    ensures
        before_first(s, c) == s.take(h),
    decreases h,
{
    if h == 0 {
        if s.len() > 0 {
            assert(s[0] == c);
        }
        assert(s.take(0) =~= Seq::<char>::empty());
    } else {
        let t = s.drop_first();
        assert forall|j: int| 0 <= j < h - 1 implies t[j] != c by {
            assert(t[j] == s[j + 1]);
        }
        if h - 1 < t.len() {
            assert(t[h - 1] == s[h]);
        }
        lemma_before_first(t, c, h - 1);
        assert(seq![s[0]] + t.take(h - 1) =~= s.take(h));
    }
}

/// The file name under which the page at `link` is stored, or `None` where
/// the link gives none (see `page_file_name_of`).
pub fn page_file_name(link: &str) -> (r: Option<String>)
    ensures
        match r {
            Some(s) => page_file_name_of(link@) == Some(s@),
            None => page_file_name_of(link@) is None,
        },
{
    let chars = chars_of(link);
    let mut f: Vec<char> = Vec::new();
    let mut i: usize = 0;
    while i < chars.len()
        invariant
            i <= chars@.len(),
            f@ == dotted(chars@.take(i as int)),
        decreases chars@.len() - i,
    {
        let c = chars[i];
        if c == '/' || c == '?' {
            f.push('.');
        } else {
            f.push(c);
        }
        i = i + 1;
        assert(f@ =~= dotted(chars@.take(i as int)));
    }
    assert(chars@.take(chars@.len() as int) =~= chars@);
    let mut h: usize = 0;
    while h < f.len() && f[h] != '#'
        invariant
            h <= f@.len(),
            forall|j: int| 0 <= j < h ==> f@[j] != '#',
        decreases f@.len() - h,
    {
        h = h + 1;
    }
    proof {
        lemma_before_first(f@, '#', h as int);
    }
    let ghost stem = f@.take(h as int);
    let mut p: usize = 0;
    let mut nb: usize = 0;
    assert(f@.subrange(0, h as int) =~= stem);
    while nb < 8 && p < h
        invariant
            p <= h <= f@.len(),
            nb <= 11,
            drop_bytes(stem, 8) == drop_bytes(f@.subrange(p as int, h as int), 8 - nb),
        decreases h - p,
    {
        let ghost t = f@.subrange(p as int, h as int);
        assert(t.drop_first() =~= f@.subrange(p + 1, h as int));
        assert(t[0] == f@[p as int]);
        nb = nb + utf8_width(f[p]);
        p = p + 1;
    }
    if nb != 8 {
        assert(drop_bytes(stem, 8) is None);
        return None;
    }
    let rest = sub_chars(&f, p, h);
    let mut name = trimmed_end(&rest);
    name.push('.');
    name.push('t');
    name.push('x');
    name.push('t');
    assert(name@ =~= trim_end(rest@) + txt_suffix());
    Some(string_from_chars(&name))
}

/// Whether `link` names a resource that is not a page (see `skipped_resource`).
pub fn is_skipped_resource(link: &str) -> (r: bool)
    ensures
        r == skipped_resource(link@),
{
    let l = chars_of(link);
    let css: Vec<char> = vec!['c', 's', 's'];
    let js: Vec<char> = vec!['j', 's'];
    let pdf: Vec<char> = vec!['p', 'd', 'f'];
    let ttf: Vec<char> = vec!['t', 't', 'f'];
    let wasm: Vec<char> = vec!['w', 'a', 's', 'm'];
    let jpg: Vec<char> = vec!['j', 'p', 'g'];
    let png: Vec<char> = vec!['p', 'n', 'g'];
    let bmp: Vec<char> = vec!['b', 'm', 'p'];
    let ico: Vec<char> = vec!['i', 'c', 'o'];
    ends_with_chars(&l, &css) || ends_with_chars(&l, &js) || ends_with_chars(&l, &pdf)
        || ends_with_chars(&l, &ttf) || ends_with_chars(&l, &wasm) || ends_with_chars(&l, &jpg)
        || ends_with_chars(&l, &png) || ends_with_chars(&l, &bmp) || ends_with_chars(&l, &ico)
}

/// The line that records in the index file the page at `link` stored as `name`.
pub fn index_line(link: &str, name: &str) -> (r: String)
    ensures
        r@ == index_line_of(link@, name@),
{
    let l = chars_of(link);
    let mut line = trimmed_end(&l);
    line.push('|');
    let n = chars_of(name);
    let mut i: usize = 0;
    let ghost start = line@;
    while i < n.len()
        invariant
            i <= n@.len(),
            line@ == start + n@.take(i as int),
        decreases n@.len() - i,
    {
        line.push(n[i]);
        i = i + 1;
        assert(line@ =~= start + n@.take(i as int));
    }
    line.push('\n');
    assert(n@.take(n@.len() as int) =~= n@);
    assert(line@ =~= index_line_of(link@, name@));
    string_from_chars(&line)
}

/// The entry of one index row, or `None` where it has no `|`.
fn read_row(row: &Vec<char>) -> (r: Option<(String, String)>)
    ensures
        match r {
            Some((a, b)) => row_entry(row@) == Some((a@, b@)),
            None => row_entry(row@) is None,
        },
{
    let pieces = split_chars(row, '|');
    assert(char_vec_views(pieces@).len() == pieces@.len());
    if pieces.len() < 2 {
        return None;
    }
    assert(char_vec_views(pieces@)[0] == pieces@[0]@);
    assert(char_vec_views(pieces@)[1] == pieces@[1]@);
    Some((string_from_chars(&pieces[0]), string_from_chars(&pieces[1])))
}

pub open spec fn entry_views(v: Seq<(String, String)>) -> Seq<(Seq<char>, Seq<char>)> {
    v.map_values(|e: (String, String)| (e.0@, e.1@))
}

/// Prepends the entries `acc` to an outcome of reading.
pub open spec fn after_entries(
    acc: Seq<(Seq<char>, Seq<char>)>,
    rest: Option<Seq<(Seq<char>, Seq<char>)>>,
) -> Option<Seq<(Seq<char>, Seq<char>)>> {
    match rest {
        Some(es) => Some(acc + es),
        None => None,
    }
}

/// The entries of the index file `content` (see `index_entries_of`).
pub fn read_index(content: &str, stop_at_blank: bool) -> (r: Option<Vec<(String, String)>>)
    ensures
        match r {
            Some(v) => index_entries_of(content@, stop_at_blank) == Some(entry_views(v@)),
            None => index_entries_of(content@, stop_at_blank) is None,
        },
{
    let chars = chars_of(content);
    let rows = split_chars(&chars, '\n');
    let ghost rv = char_vec_views(rows@);
    assert(rv.len() == rows@.len());
    let mut acc: Vec<(String, String)> = Vec::new();
    let mut i: usize = 0;
    assert(rv.skip(0) =~= rv);
    assert(entry_views(acc@) + Seq::<(Seq<char>, Seq<char>)>::empty() =~= entry_views(acc@));
    while i < rows.len()
        invariant
            i <= rows@.len(),
            rv == char_vec_views(rows@),
            rv == split_on(chars@, '\n'),
            rv.len() == rows@.len(),
            chars@ == content@,
            index_entries_of(content@, stop_at_blank) == after_entries(
                entry_views(acc@),
                rows_entries(rv.skip(i as int), stop_at_blank),
            ),
        decreases rows@.len() - i,
    {
        let ghost rest = rv.skip(i as int);
        assert(rest.drop_first() =~= rv.skip(i + 1));
        assert(rest[0] == rows@[i as int]@);
        let row = &rows[i];
        if row.len() == 0 {
            if stop_at_blank {
                assert(entry_views(acc@) + Seq::<(Seq<char>, Seq<char>)>::empty() =~= entry_views(acc@));
                return Some(acc);
            }
        } else {
            match read_row(row) {
                None => {
                    return None;
                },
                Some(e) => {
                    let ghost before = entry_views(acc@);
                    acc.push(e);
                    assert(entry_views(acc@) =~= before.push((e.0@, e.1@)));
                    assert forall|es: Seq<(Seq<char>, Seq<char>)>| #[trigger] (before + (seq![(e.0@, e.1@)] + es)) == entry_views(acc@) + es by {
                        assert(before + (seq![(e.0@, e.1@)] + es) =~= entry_views(acc@) + es);
                    }
                },
            }
        }
        i = i + 1;
    }
    assert(rv.skip(i as int) =~= Seq::<Seq<char>>::empty());
    assert(entry_views(acc@) + Seq::<(Seq<char>, Seq<char>)>::empty() =~= entry_views(acc@));
    Some(acc)
}

/// The stored-page paths that the index file `content` lists, passing over
/// empty rows; `None` where a row has no `|`.
pub fn index_paths(content: &str) -> (r: Option<Vec<String>>)
    ensures
        match r {
            Some(v) => index_entries_of(content@, false) matches Some(es) && es.len() == v@.len()
                && forall|j: int| 0 <= j < v@.len() ==> #[trigger] v@[j]@ == es[j].1,
            None => index_entries_of(content@, false) is None,
        },
{
    match read_index(content, false) {
        None => None,
        Some(entries) => {
            let mut paths: Vec<String> = Vec::new();
            let mut i: usize = 0;
            while i < entries.len()
                invariant
                    i <= entries@.len(),
                    paths@.len() == i,
                    forall|j: int| 0 <= j < i ==> #[trigger] paths@[j]@ == entries@[j].1@,
                decreases entries@.len() - i,
            {
                paths.push(entries[i].1.clone());
                i = i + 1;
            }
            Some(paths)
        },
    }
}

/// The text of an index file written for the entries `es`, one line per
/// entry, in order.
pub open spec fn index_text(es: Seq<(Seq<char>, Seq<char>)>) -> Seq<char>
    decreases es.len(),
{
    if es.len() == 0 {
        seq![]
    } else {
        index_text(es.drop_last()) + index_line_of(es.last().0, es.last().1)
    }
}

/// An entry can be written to the index and read back: neither the link
/// (without its trailing white space) nor the name holds `|` or a line break.
pub open spec fn writable_entry(e: (Seq<char>, Seq<char>)) -> bool {
    &&& !trim_end(e.0).contains('|')
    &&& !trim_end(e.0).contains('\n')
    &&& !e.1.contains('|')
    &&& !e.1.contains('\n')
}

/// The row written for an entry.
pub open spec fn entry_row(e: (Seq<char>, Seq<char>)) -> Seq<char> {
    trim_end(e.0) + seq!['|'] + e.1
}

/// The rows written for the entries `es`.
pub open spec fn entry_rows(es: Seq<(Seq<char>, Seq<char>)>) -> Seq<Seq<char>> {
    es.map_values(|e: (Seq<char>, Seq<char>)| entry_row(e))
}

/// The entries `es` as they are read back: each link without its trailing white space.
pub open spec fn read_back(es: Seq<(Seq<char>, Seq<char>)>) -> Seq<(Seq<char>, Seq<char>)> {
    es.map_values(|e: (Seq<char>, Seq<char>)| (trim_end(e.0), e.1))
}

/// Splitting text that ends with a piece free of the delimiter extends the
/// last piece by it.
pub proof fn lemma_split_append(s: Seq<char>, r: Seq<char>, d: char)
    requires
        !r.contains(d),
    ensures
        split_on(s + r, d) == split_on(s, d).drop_last().push(split_on(s, d).last() + r),
    decreases r.len(),
{
    lemma_split_on_nonempty(s, d);
    if r.len() == 0 {
        assert(s + r =~= s);
        assert(split_on(s, d).last() + r =~= split_on(s, d).last());
        assert(split_on(s, d).drop_last().push(split_on(s, d).last()) =~= split_on(s, d));
    } else {
        let r0 = r.drop_last();
        let c = r.last();
        assert(!r0.contains(d)) by {
            if r0.contains(d) {
                let j = choose|j: int| 0 <= j < r0.len() && r0[j] == d;
                assert(r[j] == d);
            }
        }
        assert(c != d) by {
            assert(r[r.len() - 1] == c);
        }
        lemma_split_append(s, r0, d);
        assert((s + r).drop_last() =~= s + r0);
        assert((s + r).last() == c);
        lemma_split_on_nonempty(s + r0, d);
        let prev = split_on(s + r0, d);
        assert(r0.push(c) =~= r);
        assert((split_on(s, d).last() + r0).push(c) =~= split_on(s, d).last() + r);
        assert(prev.update(prev.len() - 1, prev.last().push(c)) =~= split_on(s, d).drop_last().push(
            split_on(s, d).last() + r,
        ));
    }
}

/// The lines of an index file are its rows, and after the last line break
/// comes one empty row.
proof fn lemma_index_rows(es: Seq<(Seq<char>, Seq<char>)>)
    requires
        forall|j: int| 0 <= j < es.len() ==> writable_entry(#[trigger] es[j]),
    ensures
        split_on(index_text(es), '\n') == entry_rows(es).push(seq![]),
    decreases es.len(),
{
    if es.len() == 0 {
        assert(entry_rows(es).push(seq![]) =~= seq![seq![]]);
    } else {
        let prev = es.drop_last();
        let e = es.last();
        assert forall|j: int| 0 <= j < prev.len() implies writable_entry(#[trigger] prev[j]) by {
            assert(prev[j] == es[j]);
        }
        lemma_index_rows(prev);
        assert(writable_entry(es[es.len() - 1]));
        let row = entry_row(e);
        assert(!row.contains('\n')) by {
            if row.contains('\n') {
                let j = choose|j: int| 0 <= j < row.len() && row[j] == '\n';
                let a = trim_end(e.0);
                if j < a.len() {
                    assert(a[j] == '\n');
                } else if j > a.len() {
                    assert(e.1[j - a.len() - 1] == '\n');
                }
            }
        }
        let t = index_text(prev);
        assert(index_text(es) =~= (t + row).push('\n'));
        lemma_split_append(t, row, '\n');
        let rows_prev = entry_rows(prev);
        assert(split_on(t, '\n') == rows_prev.push(seq![]));
        assert(rows_prev.push(seq![]).drop_last() =~= rows_prev);
        assert(Seq::<char>::empty() + row =~= row);
        assert(entry_rows(es) =~= rows_prev.push(row));
        let full = (t + row).push('\n');
        assert(full.drop_last() =~= t + row);
        assert(full.last() == '\n');
        assert(split_on(full, '\n') == split_on(t + row, '\n').push(seq![]));
        assert(split_on(t + row, '\n') =~= rows_prev.push(row));
    }
}

/// A row written for an entry reads back as the entry's trimmed link and name.
proof fn lemma_row_entry(e: (Seq<char>, Seq<char>))
    requires
        writable_entry(e),
    ensures
        row_entry(trim_end(e.0) + seq!['|'] + e.1) == Some((trim_end(e.0), e.1)),
{
    let a = trim_end(e.0);
    let empty = Seq::<char>::empty();
    lemma_split_append(empty, a, '|');
    assert(empty + a =~= a);
    assert(split_on(empty, '|') =~= seq![empty]);
    assert(seq![empty].drop_last().push(empty + a) =~= seq![a]);
    let with_bar = a.push('|');
    assert(split_on(with_bar, '|') =~= seq![a, empty]) by {
        assert(with_bar.drop_last() =~= a);
    }
    lemma_split_append(with_bar, e.1, '|');
    assert(a + seq!['|'] + e.1 =~= with_bar + e.1);
    assert(seq![a, empty].drop_last().push(empty + e.1) =~= seq![a, e.1]);
}

/// Reading the rows of written entries, followed by an empty row, gives the entries back.
proof fn lemma_rows_read_back(es: Seq<(Seq<char>, Seq<char>)>, stop_at_blank: bool)
    requires
        forall|j: int| 0 <= j < es.len() ==> writable_entry(#[trigger] es[j]),
    ensures
        rows_entries(entry_rows(es).push(seq![]), stop_at_blank) == Some(read_back(es)),
    decreases es.len(),
{
    let rows = entry_rows(es).push(seq![]);
    if es.len() == 0 {
        assert(rows =~= seq![Seq::<char>::empty()]);
        assert(rows.drop_first() =~= Seq::<Seq<char>>::empty());
        assert(read_back(es) =~= Seq::<(Seq<char>, Seq<char>)>::empty());
        assert(rows[0].len() == 0);
        assert(rows_entries(rows.drop_first(), stop_at_blank) == Some(Seq::<(Seq<char>, Seq<char>)>::empty()));
    } else {
        let rest = es.drop_first();
        assert forall|j: int| 0 <= j < rest.len() implies writable_entry(#[trigger] rest[j]) by {
            assert(rest[j] == es[j + 1]);
        }
        lemma_rows_read_back(rest, stop_at_blank);
        assert(writable_entry(es[0]));
        lemma_row_entry(es[0]);
        assert(rows[0] == entry_row(es[0]));
        assert(rows[0].len() > 0) by {
            assert(rows[0][trim_end(es[0].0).len() as int] == '|');
        }
        assert(rows.drop_first() =~= entry_rows(rest).push(seq![]));
        assert(read_back(es) =~= seq![(trim_end(es[0].0), es[0].1)] + read_back(rest));
        assert(row_entry(rows[0]) == Some((trim_end(es[0].0), es[0].1)));
        assert(rows_entries(rows.drop_first(), stop_at_blank) == Some(read_back(rest)));
        assert(rows.len() > 0);
    }
}

/// What the crawler writes to its index file it reads back: the index text
/// of entries whose links and names hold no `|` and no line break gives the
/// entries, each link without its trailing white space, whether reading
/// stops at the first empty row or passes over empty rows.
pub proof fn lemma_index_read_back(es: Seq<(Seq<char>, Seq<char>)>, stop_at_blank: bool)
    requires
        forall|j: int| 0 <= j < es.len() ==> writable_entry(#[trigger] es[j]),
    ensures
        index_entries_of(index_text(es), stop_at_blank) == Some(read_back(es)),
{
    lemma_index_rows(es);
    lemma_rows_read_back(es, stop_at_blank);
}

} // verus!
