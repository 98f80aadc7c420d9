//! The tokenizing filter: re-serializes an HTML token stream, dropping the
//! subtrees rooted at `style`, `form` and `script` tags.
use vstd::prelude::*;
use vstd::string::StringSliceAdditionalSpecFns;
use html5gum::{Token as GumToken, Tokenizer};
use crate::prune::append_range;

verus! {

/// A lexical token of an HTML document. Names and payloads are raw bytes.
#[derive(Debug, Clone)]
pub enum HtmlToken {
    /// `<name key="value" ...>`, with its attributes in the tokenizer's order.
    StartTag { name: Vec<u8>, attributes: Vec<(Vec<u8>, Vec<u8>)> },
    /// `</name>`.
    EndTag { name: Vec<u8> },
    /// Character data.
    Text { text: Vec<u8> },
    /// `<!-- text -->`.
    Comment { text: Vec<u8> },
    /// `<!DOCTYPE name>`.
    Doctype { name: Vec<u8> },
    /// A lexical error that the tokenizer recovered from.
    Error,
}

/// The tokens that html5gum reads from a document.
pub uninterp spec fn tokens_of(html: Seq<char>) -> Seq<HtmlToken>;

/// Relies on `html5gum::Tokenizer::new` over a `&str`: it yields the document's
/// tokens (its reader cannot fail), which depend on the text alone.
#[verifier::external_body]
fn tokenize(html: &str) -> (r: Vec<HtmlToken>)
    ensures
        r@ == tokens_of(html@),
{
    Tokenizer::new(html).flatten().map(|t| match t {
        GumToken::StartTag(tag) => HtmlToken::StartTag {
            name: tag.name.0,
            attributes: tag.attributes.into_iter().map(|(k, v)| (k.0, v.value.0)).collect(),
        },
        GumToken::EndTag(tag) => HtmlToken::EndTag { name: tag.name.0 },
        GumToken::String(s) => HtmlToken::Text { text: s.value.0 },
        GumToken::Comment(s) => HtmlToken::Comment { text: s.value.0 },
        GumToken::Doctype(d) => HtmlToken::Doctype { name: d.value.name.0 },
        GumToken::Error(_) => HtmlToken::Error,
    }).collect()
}

/// The tag names whose subtrees are dropped: `style`, `form` and `script`.
pub open spec fn is_ignored(name: Seq<u8>) -> bool {
    name == "style".spec_bytes() || name == "form".spec_bytes() || name == "script".spec_bytes()
}

/// ` key="value"`, with the value copied as it is.
pub open spec fn attribute_bytes(a: (Vec<u8>, Vec<u8>)) -> Seq<u8> {
    " ".spec_bytes() + a.0@ + "=\"".spec_bytes() + a.1@ + "\"".spec_bytes()
}

/// The attributes, one after the other, in their order.
pub open spec fn attributes_bytes(attrs: Seq<(Vec<u8>, Vec<u8>)>) -> Seq<u8>
    decreases attrs.len(),
{
    if attrs.len() == 0 {
        Seq::empty()
    } else {
        attributes_bytes(attrs.drop_last()) + attribute_bytes(attrs.last())
    }
}

/// How a token is written out: tags are rebuilt from their name and
/// attributes, text is copied, and comments, doctypes and errors are not
/// written.
pub open spec fn rendered(tok: HtmlToken) -> Seq<u8> {
    match tok {
        HtmlToken::StartTag { name, attributes } => "<".spec_bytes() + name@ + attributes_bytes(
            attributes@,
        ) + ">".spec_bytes(),
        HtmlToken::EndTag { name } => "</".spec_bytes() + name@ + ">".spec_bytes(),
        HtmlToken::Text { text } => text@,
        _ => Seq::empty(),
    }
}

/// All tokens written out one after the other, none dropped.
pub open spec fn rendered_all(toks: Seq<HtmlToken>) -> Seq<u8>
    decreases toks.len(),
{
    if toks.len() == 0 {
        Seq::empty()
    } else {
        rendered_all(toks.drop_last()) + rendered(toks.last())
    }
}

/// Whether the filter passes `tok` on, given whether it is inside an ignored
/// subtree. End tags of other names pass even inside one.
pub open spec fn is_kept(tok: HtmlToken, suppressed: bool) -> bool {
    match tok {
        HtmlToken::StartTag { name, .. } => !suppressed && !is_ignored(name@),
        HtmlToken::EndTag { name } => !is_ignored(name@),
        HtmlToken::Text { .. } => !suppressed,
        _ => false,
    }
}

/// The suppression flag after `tok`: set by a start tag of an ignored name,
/// cleared by an end tag of an ignored name.
pub open spec fn next_suppressed(tok: HtmlToken, suppressed: bool) -> bool {
    match tok {
        HtmlToken::StartTag { name, .. } => suppressed || is_ignored(name@),
        HtmlToken::EndTag { name } => if is_ignored(name@) {
            false
        } else {
            suppressed
        },
        _ => suppressed,
    }
}

/// The suppression flag after all of `toks`.
pub open spec fn suppressed_after(toks: Seq<HtmlToken>) -> bool
    decreases toks.len(),
{
    if toks.len() == 0 {
        false
    } else {
        next_suppressed(toks.last(), suppressed_after(toks.drop_last()))
    }
}

/// What the filter writes for the token at `i`.
pub open spec fn piece(toks: Seq<HtmlToken>, i: int) -> Seq<u8> {
    if is_kept(toks[i], suppressed_after(toks.subrange(0, i))) {
        rendered(toks[i])
    } else {
        Seq::empty()
    }
}

/// The filter's output: the piece of each token, in order.
pub open spec fn filtered(toks: Seq<HtmlToken>) -> Seq<u8>
    decreases toks.len(),
{
    if toks.len() == 0 {
        Seq::empty()
    } else {
        filtered(toks.drop_last()) + piece(toks, toks.len() - 1)
    }
}

/// The tokens that the filter passes on, in order.
pub open spec fn kept(toks: Seq<HtmlToken>) -> Seq<HtmlToken>
    decreases toks.len(),
{
    if toks.len() == 0 {
        Seq::empty()
    } else if is_kept(toks.last(), suppressed_after(toks.drop_last())) {
        kept(toks.drop_last()).push(toks.last())
    } else {
        kept(toks.drop_last())
    }
}

/// A start tag of an ignored name.
pub open spec fn opens_ignored(tok: HtmlToken) -> bool {
    match tok {
        HtmlToken::StartTag { name, .. } => is_ignored(name@),
        _ => false,
    }
}

/// An end tag of an ignored name.
pub open spec fn closes_ignored(tok: HtmlToken) -> bool {
    match tok {
        HtmlToken::EndTag { name } => is_ignored(name@),
        _ => false,
    }
}

/// No token of `toks` is a tag of an ignored name.
pub open spec fn has_no_ignored_tags(toks: Seq<HtmlToken>) -> bool {
    forall|i: int| 0 <= i < toks.len() ==> !opens_ignored(#[trigger] toks[i]) && !closes_ignored(toks[i])
}

/// After a start tag of an ignored name at `k`, the flag stays set up to `m`
/// while no end tag of an ignored name comes.
proof fn lemma_suppressed_inside(toks: Seq<HtmlToken>, k: int, m: int)
    requires
        0 <= k < m <= toks.len(),
        opens_ignored(toks[k]),
        forall|x: int| k < x < m ==> !closes_ignored(#[trigger] toks[x]),
    ensures
        suppressed_after(toks.subrange(0, m)),
    decreases m - k,
{
    let pre = toks.subrange(0, m);
    assert(pre.drop_last() =~= toks.subrange(0, m - 1));
    if m > k + 1 {
        lemma_suppressed_inside(toks, k, m - 1);
    }
}

/// The tags of ignored names are never written, and neither is any start tag
/// or text that comes after a start tag of an ignored name (at `k`) and before
/// the next end tag of an ignored name. Only end tags of other names are
/// written from inside such a subtree.
pub proof fn lemma_ignored_subtree_dropped(toks: Seq<HtmlToken>, k: int, i: int)
    requires
        0 <= k < i < toks.len(),
        opens_ignored(toks[k]),
        forall|x: int| k < x < i ==> !closes_ignored(#[trigger] toks[x]),
        !(toks[i] is EndTag),
    ensures
        piece(toks, i) == Seq::<u8>::empty(),
{
    lemma_suppressed_inside(toks, k, i);
}

/// A tag of an ignored name writes nothing, wherever it stands.
pub proof fn lemma_ignored_tags_dropped(toks: Seq<HtmlToken>, i: int)
    requires
        0 <= i < toks.len(),
        opens_ignored(toks[i]) || closes_ignored(toks[i]),
    ensures
        piece(toks, i) == Seq::<u8>::empty(),
{
}

/// Without tags of ignored names the flag is never set.
proof fn lemma_never_suppressed(toks: Seq<HtmlToken>)
    requires
        has_no_ignored_tags(toks),
    ensures
        !suppressed_after(toks),
    decreases toks.len(),
{
    if toks.len() > 0 {
        let pre = toks.drop_last();
        assert(has_no_ignored_tags(pre)) by {
            assert forall|i: int| 0 <= i < pre.len() implies !opens_ignored(#[trigger] pre[i])
                && !closes_ignored(pre[i]) by {
                assert(pre[i] == toks[i]);
            }
        }
        lemma_never_suppressed(pre);
        assert(!opens_ignored(toks[toks.len() - 1]));
    }
}

/// A document with no `style`, `form` or `script` tags is written out whole:
/// every tag with its name and its attributes' names and values, and every
/// text, in their order; only comments, doctypes and errors are left out.
pub proof fn lemma_plain_document_kept(toks: Seq<HtmlToken>)
    requires
        has_no_ignored_tags(toks),
    ensures
        filtered(toks) == rendered_all(toks),
    decreases toks.len(),
{
    if toks.len() > 0 {
        let pre = toks.drop_last();
        assert(has_no_ignored_tags(pre)) by {
            assert forall|i: int| 0 <= i < pre.len() implies !opens_ignored(#[trigger] pre[i])
                && !closes_ignored(pre[i]) by {
                assert(pre[i] == toks[i]);
            }
        }
        lemma_plain_document_kept(pre);
        lemma_never_suppressed(pre);
        assert(toks.subrange(0, toks.len() - 1) =~= pre);
        assert(!opens_ignored(toks[toks.len() - 1]) && !closes_ignored(toks[toks.len() - 1]));
    }
}

/// The filter writes exactly the tokens it keeps, each rendered.
proof fn lemma_filtered_is_kept(toks: Seq<HtmlToken>)
    ensures
        filtered(toks) == rendered_all(kept(toks)),
        has_no_ignored_tags(kept(toks)),
    decreases toks.len(),
{
    if toks.len() > 0 {
        let pre = toks.drop_last();
        lemma_filtered_is_kept(pre);
        assert(toks.subrange(0, toks.len() - 1) =~= pre);
        let kp = kept(pre);
        if is_kept(toks.last(), suppressed_after(pre)) {
            assert(kp.push(toks.last()).drop_last() =~= kp);
            let kt = kp.push(toks.last());
            assert forall|i: int| 0 <= i < kt.len() implies !opens_ignored(#[trigger] kt[i])
                && !closes_ignored(kt[i]) by {
                if i < kp.len() {
                    assert(kt[i] == kp[i]);
                }
            }
        }
    }
}

/// Filtering what the filter keeps changes nothing: run on the tokens of its
/// own output (which hold no `style`, `form` or `script` tags), the filter
/// writes the same bytes again.
pub proof fn lemma_filter_idempotent(toks: Seq<HtmlToken>)
    ensures
        has_no_ignored_tags(kept(toks)),
        filtered(kept(toks)) == filtered(toks),
{
    lemma_filtered_is_kept(toks);
    lemma_plain_document_kept(kept(toks));
}

/// Appends the UTF-8 bytes of `s`.
fn push_str(out: &mut Vec<u8>, s: &str)
    ensures
        final(out)@ == old(out)@ + s.spec_bytes(),
{
    let b = s.as_bytes();
    append_range(out, b, 0, b.len());
    assert(b@.subrange(0, b@.len() as int) =~= b@);
}

/// Appends `v`.
fn push_bytes(out: &mut Vec<u8>, v: &Vec<u8>)
    ensures
        final(out)@ == old(out)@ + v@,
{
    let b = v.as_slice();
    append_range(out, b, 0, b.len());
    assert(b@.subrange(0, b@.len() as int) =~= b@);
}

/// Whether two byte sequences are equal.
fn bytes_eq(a: &[u8], b: &[u8]) -> (r: bool)
    ensures
        r == (a@ == b@),
{
    if a.len() != b.len() {
        return false;
    }
    let mut i: usize = 0;
    while i < a.len()
        invariant
            i <= a@.len() == b@.len(),
            forall|k: int| 0 <= k < i ==> a@[k] == b@[k],
        decreases a@.len() - i,
    {
        if a[i] != b[i] {
            return false;
        }
        i = i + 1;
    }
    assert(a@ =~= b@);
    true
}

/// Whether `name` is one of the ignored tag names.
fn ignored_name(name: &Vec<u8>) -> (r: bool)
    ensures
        r == is_ignored(name@),
{
    let n = name.as_slice();
    bytes_eq(n, "style".as_bytes()) || bytes_eq(n, "form".as_bytes()) || bytes_eq(n, "script".as_bytes())
}

/// Appends a start tag, rebuilt from its name and attributes.
fn push_start_tag(out: &mut Vec<u8>, name: &Vec<u8>, attributes: &Vec<(Vec<u8>, Vec<u8>)>)
    ensures
        final(out)@ == old(out)@ + "<".spec_bytes() + name@ + attributes_bytes(attributes@)
            + ">".spec_bytes(),
{
    push_str(out, "<");
    push_bytes(out, name);
    let ghost front = out@;
    let mut i: usize = 0;
    while i < attributes.len()
        invariant
            i <= attributes@.len(),
            out@ == front + attributes_bytes(attributes@.subrange(0, i as int)),
        decreases attributes@.len() - i,
    {
        let ghost before = out@;
        let attr = &attributes[i];
        push_str(out, " ");
        push_bytes(out, &attr.0);
        push_str(out, "=\"");
        push_bytes(out, &attr.1);
        push_str(out, "\"");
        assert(attributes@.subrange(0, i + 1).drop_last() =~= attributes@.subrange(0, i as int));
        assert(out@ =~= before + attribute_bytes(attributes@[i as int]));
        i = i + 1;
    }
    assert(attributes@.subrange(0, attributes@.len() as int) =~= attributes@);
    push_str(out, ">");
}

/// Writes out the tokens that lie outside every `style`, `form` and `script`
/// subtree. A start tag of one of those names opens a suppressed stretch that
/// the next end tag of one of those names closes; inside it, start tags and
/// text are dropped, and only end tags of other names are written. The tags of
/// those names themselves, comments, doctypes and errors are never written.
/// The state is one flag, not a depth count: in `<form><form>a</form>b</form>`
/// the first `</form>` already ends the stretch, so `b` is written.
pub fn filter_tokens(tokens: &Vec<HtmlToken>) -> (r: Vec<u8>)
    ensures
        r@ == filtered(tokens@),
{
    let mut out: Vec<u8> = Vec::new();
    let mut ignore = false;
    let mut i: usize = 0;
    while i < tokens.len()
        invariant
            i <= tokens@.len(),
            out@ == filtered(tokens@.subrange(0, i as int)),
            ignore == suppressed_after(tokens@.subrange(0, i as int)),
        decreases tokens@.len() - i,
    {
        let ghost pre = tokens@.subrange(0, i as int);
        let ghost next = tokens@.subrange(0, i + 1);
        let ghost before = out@;
        assert(next.drop_last() =~= pre);
        assert(next.subrange(0, i as int) =~= pre);
        match &tokens[i] {
            HtmlToken::StartTag { name, attributes } => {
                if !ignore {
                    if ignored_name(name) {
                        ignore = true;
                    } else {
                        push_start_tag(&mut out, name, attributes);
                    }
                }
            },
            HtmlToken::Text { text } => {
                if !ignore {
                    push_bytes(&mut out, text);
                }
            },
            HtmlToken::EndTag { name } => {
                if ignored_name(name) {
                    ignore = false;
                } else {
                    push_str(&mut out, "</");
                    push_bytes(&mut out, name);
                    push_str(&mut out, ">");
                }
            },
            _ => {},
        }
        assert(out@ =~= before + piece(next, i as int));
        i = i + 1;
    }
    assert(tokens@.subrange(0, tokens@.len() as int) =~= tokens@);
    out
}

/// Tokenizes `html` and writes out what `filter_tokens` keeps of it.
pub fn modify_xml(html: &str) -> (r: Vec<u8>)
    ensures
        r@ == filtered(tokens_of(html@)),
{
    let tokens = tokenize(html);
    filter_tokens(&tokens)
}

} // verus!
