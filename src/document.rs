//! Pruning of the head and body regions of a whole document.
use vstd::prelude::*;
use vstd::string::StringSliceAdditionalSpecFns;
use crate::prune::{
    append_range, last_literal, lemma_ascii_len,
    form_removed, line_breaks_removed, meta_removed, notice_removed, remove_empty_lines,
    remove_form, remove_meta, remove_script, remove_style, remove_trees, script_removed,
    style_removed,
};
use crate::search::{absent_from, find_literal, first_from, last_at, lemma_first_unique, lemma_last_unique, occurs_at};

verus! {

/// Why a region of a document could not be located.
#[derive(Debug, Clone, Copy, PartialEq, Eq, Structural)]
pub enum PruneError {
    /// No `<head>` is followed by a `</head>`.
    MissingHead,
    /// The document holds no `<body>`.
    MissingBodyOpen,
    /// The document holds no `</body>`.
    MissingBodyClose,
    /// The first `</body>` ends before the first `<body>` starts.
    BodyCloseBeforeOpen,
}

/// The head region runs from the first `<head>` (at `s`) to the end of the last
/// `</head>` (at `j`), which must not overlap it.
pub open spec fn head_region(t: Seq<u8>, s: int, j: int) -> bool {
    first_from(t, "<head>".spec_bytes(), 0, s) && last_at(t, "</head>".spec_bytes(), j) && s
        + "<head>".spec_bytes().len() <= j
}

/// What the head region becomes.
pub open spec fn pruned_head(region: Seq<u8>) -> Seq<u8> {
    form_removed(meta_removed(style_removed(script_removed(region))))
}

/// What the body region becomes.
pub open spec fn pruned_body(region: Seq<u8>) -> Seq<u8> {
    line_breaks_removed(notice_removed(form_removed(style_removed(script_removed(region)))))
}

/// `t` with `t[s..e]` replaced by `mid`.
pub open spec fn splice(t: Seq<u8>, s: int, e: int, mid: Seq<u8>) -> Seq<u8> {
    t.subrange(0, s) + mid + t.subrange(e, t.len() as int)
}

/// The document with its head region pruned.
pub open spec fn cleaned_head(t: Seq<u8>) -> Result<Seq<u8>, PruneError> {
    if exists|s: int, j: int| head_region(t, s, j) {
        let (s, j) = choose|s: int, j: int| head_region(t, s, j);
        let e = j + "</head>".spec_bytes().len();
        Ok(splice(t, s, e, pruned_head(t.subrange(s, e))))
    } else {
        Err(PruneError::MissingHead)
    }
}

/// The document with its body region pruned. The region runs from the first
/// `<body>` to the end of the first `</body>`.
pub open spec fn cleaned_body(t: Seq<u8>) -> Result<Seq<u8>, PruneError> {
    let open = "<body>".spec_bytes();
    let close = "</body>".spec_bytes();
    if !exists|s: int| first_from(t, open, 0, s) {
        Err(PruneError::MissingBodyOpen)
    } else if !exists|j: int| first_from(t, close, 0, j) {
        Err(PruneError::MissingBodyClose)
    } else {
        let s = choose|s: int| first_from(t, open, 0, s);
        let e = (choose|j: int| first_from(t, close, 0, j)) + close.len();
        if s > e {
            Err(PruneError::BodyCloseBeforeOpen)
        } else {
            Ok(splice(t, s, e, pruned_body(t.subrange(s, e))))
        }
    }
}

/// The document with its head region pruned, then its body region.
pub open spec fn cleaned_document(t: Seq<u8>) -> Result<Seq<u8>, PruneError> {
    match cleaned_head(t) {
        Ok(h) => cleaned_body(h),
        Err(e) => Err(e),
    }
}

/// A document without `<head>` is reported as such, never returned as it is.
pub proof fn lemma_missing_head_detected(t: Seq<u8>)
    requires
        absent_from(t, "<head>".spec_bytes(), 0),
    ensures
        cleaned_head(t) == Err::<Seq<u8>, PruneError>(PruneError::MissingHead),
{
}

/// `t[..s] + mid + t[e..]`.
fn splice_bytes(t: &[u8], s: usize, e: usize, mid: &[u8]) -> (r: Vec<u8>)
    requires
        s <= e <= t@.len(),
    ensures
        r@ == splice(t@, s as int, e as int, mid@),
{
    let mut out: Vec<u8> = Vec::new();
    append_range(&mut out, t, 0, s);
    append_range(&mut out, mid, 0, mid.len());
    append_range(&mut out, t, e, t.len());
    assert(mid@.subrange(0, mid@.len() as int) =~= mid@);
    out
}

/// A copy of `t[s..e]`.
fn region_bytes(t: &[u8], s: usize, e: usize) -> (r: Vec<u8>)
    requires
        s <= e <= t@.len(),
    ensures
        r@ == t@.subrange(s as int, e as int),
{
    let mut out: Vec<u8> = Vec::new();
    append_range(&mut out, t, s, e);
    out
}

/// Prunes the head region (from the first `<head>` to the end of the last
/// `</head>`): removes its `script`, `style`, `meta` and `form` markup, in that
/// order, and puts the result back in place of the region.
pub fn clean_head(target: &[u8]) -> (r: Result<Vec<u8>, PruneError>)
    ensures
        match r {
            Ok(v) => cleaned_head(target@) == Ok::<Seq<u8>, PruneError>(v@),
            Err(e) => cleaned_head(target@) == Err::<Seq<u8>, PruneError>(e),
        },
{
    let ghost t = target@;
    let ghost open = "<head>".spec_bytes();
    let ghost close = "</head>".spec_bytes();
    proof {
        reveal_strlit("<head>");
        reveal_strlit("</head>");
        lemma_ascii_len("<head>");
        lemma_ascii_len("</head>");
    }
    let n = target.len();
    let s = match find_literal(target, "<head>", 0) {
        Some(s) => s,
        None => {
            return Err(PruneError::MissingHead);
        },
    };
    let j = match last_literal(target, "</head>") {
        Some(j) => j,
        None => {
            assert forall|s2: int, j2: int| !head_region(t, s2, j2) by {}
            return Err(PruneError::MissingHead);
        },
    };
    assert(occurs_at(t, open, s as int) && occurs_at(t, close, j as int));
    if s + 6 > j {
        assert forall|s2: int, j2: int| !head_region(t, s2, j2) by {
            if head_region(t, s2, j2) {
                lemma_first_unique(t, open, 0, s as int, s2);
                lemma_last_unique(t, close, j as int, j2);
            }
        }
        return Err(PruneError::MissingHead);
    }
    assert(head_region(t, s as int, j as int));
    assert forall|s2: int, j2: int| head_region(t, s2, j2) implies s2 == s && j2 == j by {
        lemma_first_unique(t, open, 0, s as int, s2);
        lemma_last_unique(t, close, j as int, j2);
    }
    let e = j + 7;
    let head = region_bytes(target, s, e);
    let head = remove_script(&head);
    let head = remove_style(&head);
    let head = remove_meta(&head);
    let head = remove_form(&head);
    Ok(splice_bytes(target, s, e, &head))
}

/// Prunes the body region (from the first `<body>` to the end of the first
/// `</body>`): removes its `script`, `style` and `form` elements, the print
/// notice and every line break, in that order, and puts the result back in
/// place of the region.
pub fn clean_body(target: &[u8]) -> (r: Result<Vec<u8>, PruneError>)
    ensures
        match r {
            Ok(v) => cleaned_body(target@) == Ok::<Seq<u8>, PruneError>(v@),
            Err(e) => cleaned_body(target@) == Err::<Seq<u8>, PruneError>(e),
        },
{
    let ghost t = target@;
    let ghost open = "<body>".spec_bytes();
    let ghost close = "</body>".spec_bytes();
    proof {
        reveal_strlit("<body>");
        reveal_strlit("</body>");
        lemma_ascii_len("<body>");
        lemma_ascii_len("</body>");
    }
    let n = target.len();
    let s = match find_literal(target, "<body>", 0) {
        Some(s) => s,
        None => {
            return Err(PruneError::MissingBodyOpen);
        },
    };
    let j = match find_literal(target, "</body>", 0) {
        Some(j) => j,
        None => {
            return Err(PruneError::MissingBodyClose);
        },
    };
    assert(occurs_at(t, close, j as int) && j + 7 <= n);
    proof {
        let s2 = choose|s2: int| first_from(t, open, 0, s2);
        lemma_first_unique(t, open, 0, s as int, s2);
        let j2 = choose|j2: int| first_from(t, close, 0, j2);
        lemma_first_unique(t, close, 0, j as int, j2);
    }
    let e = j + 7;
    if s > e {
        return Err(PruneError::BodyCloseBeforeOpen);
    }
    let body = region_bytes(target, s, e);
    let body = remove_script(&body);
    let body = remove_style(&body);
    let body = remove_form(&body);
    let body = remove_trees(&body);
    let body = remove_empty_lines(&body);
    Ok(splice_bytes(target, s, e, &body))
}

/// Prunes the head region with `clean_head`, then the body region of the
/// result with `clean_body`.
pub fn clean_document(target: &[u8]) -> (r: Result<Vec<u8>, PruneError>)
    ensures
        match r {
            Ok(v) => cleaned_document(target@) == Ok::<Seq<u8>, PruneError>(v@),
            Err(e) => cleaned_document(target@) == Err::<Seq<u8>, PruneError>(e),
        },
{
    let head = match clean_head(target) {
        Ok(head) => head,
        Err(e) => {
            return Err(e);
        },
    };
    clean_body(head.as_slice())
}

} // verus!
