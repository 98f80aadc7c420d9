//! Byte-level passes that locate a region of a document by literal search and
//! remove it.
use vstd::prelude::*;
use vstd::string::{is_ascii, StringSliceAdditionalSpecFns};
use crate::search::{
    absent_from, find_literal, first_from, last_at, lemma_first_unique, lemma_last_unique,
    lemma_occurs_in_suffix, occurs_at,
};

verus! {

/// Appends `t[from..to]` to `out`.
pub(crate) fn append_range(out: &mut Vec<u8>, t: &[u8], from: usize, to: usize)
    requires
        from <= to <= t@.len(),
    ensures
        final(out)@ == old(out)@ + t@.subrange(from as int, to as int),
{
    let ghost start = out@;
    let mut i: usize = from;
    while i < to
        invariant
            from <= i <= to <= t@.len(),
            out@ == start + t@.subrange(from as int, i as int),
        decreases to - i,
    {
        out.push(t[i]);
        assert(t@.subrange(from as int, i + 1) == t@.subrange(from as int, i as int).push(t@[i as int]));
        i = i + 1;
    }
}

/// Index of the last occurrence of `needle` in `hay`.
pub(crate) fn last_literal(hay: &[u8], needle: &str) -> (r: Option<usize>)
    requires
        needle.spec_bytes().len() <= 1024,
    ensures
        match r {
            Some(j) => last_at(hay@, needle.spec_bytes(), j as int),
            None => absent_from(hay@, needle.spec_bytes(), 0),
        },
{
    let ghost pat = needle.spec_bytes();
    let mut found: Option<usize> = None;
    let mut pos: usize = 0;
    loop
        invariant
            pos <= hay@.len(),
            pat == needle.spec_bytes(),
            pat.len() <= 1024,
            match found {
                Some(j) => occurs_at(hay@, pat, j as int) && j < pos && forall|k: int|
                    j < k < pos ==> !occurs_at(hay@, pat, k),
                None => forall|k: int| 0 <= k < pos ==> !occurs_at(hay@, pat, k),
            },
        decreases hay@.len() - pos,
    {
        match find_literal(hay, needle, pos) {
            None => {
                return found;
            },
            Some(i) => {
                found = Some(i);
                if i >= hay.len() {
                    return found;
                }
                pos = i + 1;
            },
        }
    }
}

/// An element spans from the first occurrence of `open` to the end of the last
/// occurrence of `close` (at `j`), with `mid` occurring in between: the leftmost,
/// longest match of `open.*mid.*close` over bytes.
pub open spec fn element_at(t: Seq<u8>, open: Seq<u8>, mid: Seq<u8>, close: Seq<u8>, s: int, j: int) -> bool {
    first_from(t, open, 0, s) && last_at(t, close, j) && exists|k: int|
        s + open.len() <= k && k + mid.len() <= j && #[trigger] occurs_at(t, mid, k)
}

/// `t` with its element removed, or `t` itself where it has none.
pub open spec fn without_element(t: Seq<u8>, open: Seq<u8>, mid: Seq<u8>, close: Seq<u8>) -> Seq<u8> {
    if exists|s: int, j: int| element_at(t, open, mid, close, s, j) {
        let (s, j) = choose|s: int, j: int| element_at(t, open, mid, close, s, j);
        t.subrange(0, s) + t.subrange(j + close.len(), t.len() as int)
    } else {
        t
    }
}

/// A copy of `t`.
fn copy_bytes(t: &[u8]) -> (r: Vec<u8>)
    ensures
        r@ == t@,
{
    let mut out: Vec<u8> = Vec::new();
    append_range(&mut out, t, 0, t.len());
    assert(t@.subrange(0, t@.len() as int) =~= t@);
    out
}

/// Removes the element found by `element_at`, if there is one.
fn remove_element(t: &[u8], open: &str, mid: &str, close: &str) -> (r: Vec<u8>)
    requires
        open.spec_bytes().len() <= 1024,
        mid.spec_bytes().len() <= 1024,
        close.spec_bytes().len() <= 1024,
    ensures
        r@ == without_element(t@, open.spec_bytes(), mid.spec_bytes(), close.spec_bytes()),
{
    let ghost o = open.spec_bytes();
    let ghost m = mid.spec_bytes();
    let ghost c = close.spec_bytes();
    let s = match find_literal(t, open, 0) {
        Some(s) => s,
        None => {
            return copy_bytes(t);
        },
    };
    let j = match last_literal(t, close) {
        Some(j) => j,
        None => {
            return copy_bytes(t);
        },
    };
    let n = t.len();
    let open_len = open.as_bytes().len();
    let mid_len = mid.as_bytes().len();
    let close_len = close.as_bytes().len();
    assert(occurs_at(t@, o, s as int) && open_len == o.len());
    let after_open = s + open_len;
    let k = match find_literal(t, mid, after_open) {
        Some(k) => k,
        None => {
            return copy_bytes(t);
        },
    };
    assert(occurs_at(t@, m, k as int) && mid_len == m.len());
    if k + mid_len > j {
        assert forall|s2: int, j2: int| !element_at(t@, o, m, c, s2, j2) by {
            if element_at(t@, o, m, c, s2, j2) {
                lemma_first_unique(t@, o, 0, s as int, s2);
                lemma_last_unique(t@, c, j as int, j2);
            }
        }
        return copy_bytes(t);
    }
    assert(element_at(t@, o, m, c, s as int, j as int));
    assert forall|s2: int, j2: int| element_at(t@, o, m, c, s2, j2) implies s2 == s && j2 == j by {
        lemma_first_unique(t@, o, 0, s as int, s2);
        lemma_last_unique(t@, c, j as int, j2);
    }
    let mut out: Vec<u8> = Vec::new();
    append_range(&mut out, t, 0, s);
    append_range(&mut out, t, j + close_len, t.len());
    out
}

/// The first span of `t` that runs from the first occurrence of `open` to the
/// end of the first occurrence of `close` after it (`close` at `k`).
pub open spec fn span_at(t: Seq<u8>, open: Seq<u8>, close: Seq<u8>, i: int, k: int) -> bool {
    first_from(t, open, 0, i) && first_from(t, close, i + open.len(), k)
}

/// `t` with every span of `open ... close` removed, leftmost first and without
/// overlap: the replacement of each match of `open[^close]*close` by nothing.
pub open spec fn without_spans(t: Seq<u8>, open: Seq<u8>, close: Seq<u8>) -> Seq<u8>
    decreases t.len(),
{
    if open.len() > 0 && exists|i: int, k: int| span_at(t, open, close, i, k) {
        let (i, k) = choose|i: int, k: int| span_at(t, open, close, i, k);
        t.subrange(0, i) + without_spans(t.subrange(k + close.len(), t.len() as int), open, close)
    } else {
        t
    }
}

/// Removes every span described by `without_spans`.
fn remove_spans(t: &[u8], open: &str, close: &str) -> (r: Vec<u8>)
    requires
        0 < open.spec_bytes().len() <= 1024,
        close.spec_bytes().len() <= 1024,
    ensures
        r@ == without_spans(t@, open.spec_bytes(), close.spec_bytes()),
{
    let ghost o = open.spec_bytes();
    let ghost c = close.spec_bytes();
    let n = t.len();
    let open_len = open.as_bytes().len();
    let close_len = close.as_bytes().len();
    let mut out: Vec<u8> = Vec::new();
    let mut pos: usize = 0;
    assert(t@.subrange(0, n as int) =~= t@);
    assert(out@ + without_spans(t@, o, c) =~= without_spans(t@, o, c));
    loop
        invariant
            pos <= n == t@.len(),
            o == open.spec_bytes(),
            c == close.spec_bytes(),
            0 < o.len() <= 1024,
            c.len() <= 1024,
            open_len == o.len(),
            close_len == c.len(),
            out@ + without_spans(t@.subrange(pos as int, n as int), o, c) == without_spans(t@, o, c),
        decreases n - pos,
    {
        let ghost rest = t@.subrange(pos as int, n as int);
        proof {
            lemma_occurs_in_suffix(t@, o, pos as int);
            lemma_occurs_in_suffix(t@, c, pos as int);
        }
        let i = match find_literal(t, open, pos) {
            Some(i) => i,
            None => {
                assert forall|i2: int, k2: int| !span_at(rest, o, c, i2, k2) by {
                    if span_at(rest, o, c, i2, k2) {
                        assert(occurs_at(rest, o, i2));
                    }
                }
                append_range(&mut out, t, pos, n);
                return out;
            },
        };
        assert(occurs_at(t@, o, i as int));
        let k = match find_literal(t, close, i + open_len) {
            Some(k) => k,
            None => {
                assert forall|i2: int, k2: int| !span_at(rest, o, c, i2, k2) by {
                    if span_at(rest, o, c, i2, k2) {
                        assert(first_from(rest, o, 0, i - pos));
                        lemma_first_unique(rest, o, 0, i - pos, i2);
                        assert(occurs_at(rest, c, k2));
                        assert(occurs_at(t@, c, pos + k2));
                    }
                }
                append_range(&mut out, t, pos, n);
                return out;
            },
        };
        assert(occurs_at(t@, c, k as int));
        let ghost ir = i - pos;
        let ghost kr = k - pos;
        assert(first_from(rest, o, 0, ir));
        assert forall|x: int| ir + o.len() <= x < kr implies !occurs_at(rest, c, x) by {
            assert(!occurs_at(t@, c, pos + x));
        }
        assert(first_from(rest, c, ir + o.len(), kr));
        assert(span_at(rest, o, c, ir, kr));
        assert forall|i2: int, k2: int| span_at(rest, o, c, i2, k2) implies i2 == ir && k2 == kr by {
            lemma_first_unique(rest, o, 0, ir, i2);
            lemma_first_unique(rest, c, ir + o.len(), kr, k2);
        }
        assert(rest.subrange(0, ir) =~= t@.subrange(pos as int, i as int));
        assert(rest.subrange(kr + c.len(), rest.len() as int) =~= t@.subrange(k + close_len, n as int));
        append_range(&mut out, t, pos, i);
        pos = k + close_len;
    }
}

/// The notice paragraph that a case-law site prints above its opinions.
pub const PRINT_NOTICE: &'static str =
    "<p id=\"gs_dont_print\">Save trees - read court opinions online on Google Scholar.</p>";

/// An ASCII string has one byte per character.
pub(crate) proof fn lemma_ascii_len(s: &str)
    requires
        is_ascii(s),
    ensures
        s.spec_bytes().len() == s@.len(),
{
    broadcast use vstd::string::is_ascii_spec_bytes;

}

/// `t` without its `script` element (see `element_at`).
pub open spec fn script_removed(t: Seq<u8>) -> Seq<u8> {
    without_element(t, "<script".spec_bytes(), ">".spec_bytes(), "</script>".spec_bytes())
}

/// `t` without its `style` element (see `element_at`).
pub open spec fn style_removed(t: Seq<u8>) -> Seq<u8> {
    without_element(t, "<style".spec_bytes(), ">".spec_bytes(), "</style>".spec_bytes())
}

/// `t` without its `form` element (see `element_at`).
pub open spec fn form_removed(t: Seq<u8>) -> Seq<u8> {
    without_element(t, "<form".spec_bytes(), ">".spec_bytes(), "</form>".spec_bytes())
}

/// `t` without any `<meta ...>` tag.
pub open spec fn meta_removed(t: Seq<u8>) -> Seq<u8> {
    without_spans(t, "<meta".spec_bytes(), ">".spec_bytes())
}

/// `t` without any occurrence of the print notice.
pub open spec fn notice_removed(t: Seq<u8>) -> Seq<u8> {
    without_spans(t, PRINT_NOTICE.spec_bytes(), "".spec_bytes())
}

/// Carriage return or line feed.
pub open spec fn is_line_break(b: u8) -> bool {
    b == 13 || b == 10
}

/// `t` without its carriage returns and line feeds.
pub open spec fn line_breaks_removed(t: Seq<u8>) -> Seq<u8> {
    t.filter(|b: u8| !is_line_break(b))
}

/// Removing line breaks a second time changes nothing.
pub proof fn lemma_line_breaks_idempotent(t: Seq<u8>)
    ensures
        line_breaks_removed(line_breaks_removed(t)) == line_breaks_removed(t),
    decreases t.len(),
{
    reveal(Seq::filter);
    if t.len() > 0 {
        let pre = t.drop_last();
        lemma_line_breaks_idempotent(pre);
        let f = line_breaks_removed(pre);
        if !is_line_break(t.last()) {
            assert(f.push(t.last()).drop_last() =~= f);
        }
    }
}

/// Where the print notice occurs once, at `i`, removing it takes out exactly
/// those bytes and keeps all others as they were.
pub proof fn lemma_notice_removed_once(t: Seq<u8>, i: int)
    requires
        occurs_at(t, PRINT_NOTICE.spec_bytes(), i),
        forall|k: int| k != i ==> !occurs_at(t, PRINT_NOTICE.spec_bytes(), k),
    ensures
        notice_removed(t) == t.subrange(0, i) + t.subrange(i + PRINT_NOTICE.spec_bytes().len(), t.len() as int),
{
    let o = PRINT_NOTICE.spec_bytes();
    let c = "".spec_bytes();
    reveal_strlit("<p id=\"gs_dont_print\">Save trees - read court opinions online on Google Scholar.</p>");
    reveal_strlit("");
    lemma_ascii_len(PRINT_NOTICE);
    lemma_ascii_len("");
    let e = i + o.len();
    assert(c =~= Seq::<u8>::empty());
    assert(t.subrange(e, e) =~= c);
    assert(first_from(t, c, e, e));
    assert(span_at(t, o, c, i, e));
    assert forall|i2: int, k2: int| span_at(t, o, c, i2, k2) implies i2 == i && k2 == e by {
        lemma_first_unique(t, o, 0, i, i2);
        lemma_first_unique(t, c, e, e, k2);
    }
    let rest = t.subrange(e, t.len() as int);
    lemma_occurs_in_suffix(t, o, e);
    assert forall|i2: int, k2: int| !span_at(rest, o, c, i2, k2) by {
        if span_at(rest, o, c, i2, k2) {
            assert(occurs_at(rest, o, i2));
            assert(occurs_at(t, o, e + i2));
        }
    }
    assert(without_spans(rest, o, c) == rest);
    assert(without_spans(t, o, c) == t.subrange(0, i) + without_spans(rest, o, c));
}

/// Removes the span from the first `<script` to the end of the last `</script>`,
/// if a `>` stands between them; otherwise returns the input unchanged.
pub fn remove_script(t: &[u8]) -> (r: Vec<u8>)
    ensures
        r@ == script_removed(t@),
{
    proof {
        reveal_strlit("<script");
        reveal_strlit(">");
        reveal_strlit("</script>");
        lemma_ascii_len("<script");
        lemma_ascii_len(">");
        lemma_ascii_len("</script>");
    }
    remove_element(t, "<script", ">", "</script>")
}

/// Removes the span from the first `<style` to the end of the last `</style>`,
/// if a `>` stands between them; otherwise returns the input unchanged.
pub fn remove_style(t: &[u8]) -> (r: Vec<u8>)
    ensures
        r@ == style_removed(t@),
{
    proof {
        reveal_strlit("<style");
        reveal_strlit(">");
        reveal_strlit("</style>");
        lemma_ascii_len("<style");
        lemma_ascii_len(">");
        lemma_ascii_len("</style>");
    }
    remove_element(t, "<style", ">", "</style>")
}

/// Removes the span from the first `<form` to the end of the last `</form>`,
/// if a `>` stands between them; otherwise returns the input unchanged.
pub fn remove_form(t: &[u8]) -> (r: Vec<u8>)
    ensures
        r@ == form_removed(t@),
{
    proof {
        reveal_strlit("<form");
        reveal_strlit(">");
        reveal_strlit("</form>");
        lemma_ascii_len("<form");
        lemma_ascii_len(">");
        lemma_ascii_len("</form>");
    }
    remove_element(t, "<form", ">", "</form>")
}

/// Removes every `<meta ...>` tag: each `<meta` up to the next `>`.
pub fn remove_meta(t: &[u8]) -> (r: Vec<u8>)
    ensures
        r@ == meta_removed(t@),
{
    proof {
        reveal_strlit("<meta");
        reveal_strlit(">");
        lemma_ascii_len("<meta");
        lemma_ascii_len(">");
    }
    remove_spans(t, "<meta", ">")
}

/// Removes every occurrence of the print notice.
pub fn remove_trees(t: &[u8]) -> (r: Vec<u8>)
    ensures
        r@ == notice_removed(t@),
{
    proof {
        reveal_strlit("<p id=\"gs_dont_print\">Save trees - read court opinions online on Google Scholar.</p>");
        reveal_strlit("");
        lemma_ascii_len(PRINT_NOTICE);
        lemma_ascii_len("");
    }
    remove_spans(t, PRINT_NOTICE, "")
}

/// Removes every carriage return and line feed.
pub fn remove_empty_lines(t: &[u8]) -> (r: Vec<u8>)
    ensures
        r@ == line_breaks_removed(t@),
{
    let mut out: Vec<u8> = Vec::new();
    let mut i: usize = 0;
    while i < t.len()
        invariant
            i <= t@.len(),
            out@ == line_breaks_removed(t@.subrange(0, i as int)),
        decreases t@.len() - i,
    {
        let b = t[i];
        let ghost pre = t@.subrange(0, i as int);
        let ghost next = t@.subrange(0, i + 1);
        assert(next.drop_last() =~= pre);
        assert(next.last() == b);
        proof {
            reveal(Seq::filter);
        }
        assert(line_breaks_removed(next) == if is_line_break(b) {
            line_breaks_removed(pre)
        } else {
            line_breaks_removed(pre).push(b)
        });
        if b != 13 && b != 10 {
            out.push(b);
        }
        i = i + 1;
    }
    assert(t@.subrange(0, t@.len() as int) =~= t@);
    out
}

} // verus!
