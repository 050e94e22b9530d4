//! Markdown span classifier.
//!
//! `highlight_markdown` asks the tree-sitter Markdown grammar for the
//! captures of its block highlight query and turns them into ordered
//! highlight spans for a renderer. The grammar call itself is trusted; all
//! the surrounding logic is verified: capture names are classified into
//! `HighlightKind`s by case-insensitive keyword search, spans outside the
//! text or off character boundaries are dropped, and the result is sorted
//! by `(start, end)`. A parse failure degrades to no spans, never an error.

use tree_sitter::StreamingIterator;
use vstd::prelude::*;
use vstd::string::StringSliceAdditionalSpecFns;
use vstd::utf8::{encode_utf8, is_char_boundary};

verus! {

/// What a highlighted region of Markdown is.
#[derive(Debug, Clone, Copy, PartialEq, Eq)]
pub enum HighlightKind {
    Heading,
    Emphasis,
    Strong,
    Code,
    Link,
    Punctuation,
    Other,
}

/// A classified byte range `[start, end)` of the source text.
#[derive(Debug, Clone, Copy, PartialEq, Eq)]
pub struct HighlightSpan {
    pub start: usize,
    pub end: usize,
    pub kind: HighlightKind,
}

/// ASCII lowercasing of one byte.
pub open spec fn lower_byte(b: u8) -> u8 {
    if 0x41 <= b && b <= 0x5a {
        (b + 0x20) as u8
    } else {
        b
    }
}

/// ASCII lowercasing of a byte sequence.
pub open spec fn lower_bytes(s: Seq<u8>) -> Seq<u8> {
    s.map_values(|b: u8| lower_byte(b))
}

/// `needle` occurs contiguously somewhere in `hay`.
pub open spec fn spec_contains(hay: Seq<u8>, needle: Seq<u8>) -> bool {
    exists|i: int|
        0 <= i && i + needle.len() <= hay.len() && #[trigger] hay.subrange(i, i + needle.len())
            == needle
}

/// The bytes of `"heading"`.
pub open spec fn kw_heading() -> Seq<u8> {
    seq![0x68u8, 0x65, 0x61, 0x64, 0x69, 0x6e, 0x67]
}

/// The bytes of `"strong"`.
pub open spec fn kw_strong() -> Seq<u8> {
    seq![0x73u8, 0x74, 0x72, 0x6f, 0x6e, 0x67]
}

/// The bytes of `"bold"`.
pub open spec fn kw_bold() -> Seq<u8> {
    seq![0x62u8, 0x6f, 0x6c, 0x64]
}

/// The bytes of `"emphasis"`.
pub open spec fn kw_emphasis() -> Seq<u8> {
    seq![0x65u8, 0x6d, 0x70, 0x68, 0x61, 0x73, 0x69, 0x73]
}

/// The bytes of `"italic"`.
pub open spec fn kw_italic() -> Seq<u8> {
    seq![0x69u8, 0x74, 0x61, 0x6c, 0x69, 0x63]
}

/// The bytes of `"code"`.
pub open spec fn kw_code() -> Seq<u8> {
    seq![0x63u8, 0x6f, 0x64, 0x65]
}

/// The bytes of `"link"`.
pub open spec fn kw_link() -> Seq<u8> {
    seq![0x6cu8, 0x69, 0x6e, 0x6b]
}

/// The bytes of `"url"`.
pub open spec fn kw_url() -> Seq<u8> {
    seq![0x75u8, 0x72, 0x6c]
}

/// The bytes of `"punctuation"`.
pub open spec fn kw_punctuation() -> Seq<u8> {
    seq![0x70u8, 0x75, 0x6e, 0x63, 0x74, 0x75, 0x61, 0x74, 0x69, 0x6f, 0x6e]
}

/// The bytes of `"delimiter"`.
pub open spec fn kw_delimiter() -> Seq<u8> {
    seq![0x64u8, 0x65, 0x6c, 0x69, 0x6d, 0x69, 0x74, 0x65, 0x72]
}

/// Kind assigned to a capture name: the first keyword found in its
/// lowercased bytes decides, headings before emphasis before code before
/// links before punctuation; anything else is `Other`.
pub open spec fn spec_classify(name: Seq<u8>) -> HighlightKind {
    let l = lower_bytes(name);
    if spec_contains(l, kw_heading()) {
        HighlightKind::Heading
    } else if spec_contains(l, kw_strong()) || spec_contains(l, kw_bold()) {
        HighlightKind::Strong
    } else if spec_contains(l, kw_emphasis()) || spec_contains(l, kw_italic()) {
        HighlightKind::Emphasis
    } else if spec_contains(l, kw_code()) {
        HighlightKind::Code
    } else if spec_contains(l, kw_link()) || spec_contains(l, kw_url()) {
        HighlightKind::Link
    } else if spec_contains(l, kw_punctuation()) || spec_contains(l, kw_delimiter()) {
        HighlightKind::Punctuation
    } else {
        HighlightKind::Other
    }
}

/// ASCII-lowercases a byte string.
fn to_ascii_lower(s: &[u8]) -> (r: Vec<u8>)
    ensures
        r@ == lower_bytes(s@),
{
    let mut r: Vec<u8> = Vec::new();
    let mut i: usize = 0;
    while i < s.len()
        invariant
            0 <= i <= s@.len(),
            r@ == lower_bytes(s@.take(i as int)),
        decreases s@.len() - i,
    {
        let b = s[i];
        if b >= 0x41 && b <= 0x5a {
            r.push(b + 0x20);
        } else {
            r.push(b);
        }
        proof {
            assert(s@.take(i as int + 1).map_values(|x: u8| lower_byte(x)) =~= s@.take(
                i as int,
            ).map_values(|x: u8| lower_byte(x)) + seq![lower_byte(s@[i as int])]);
        }
        i = i + 1;
    }
    proof {
        assert(s@.take(s@.len() as int) =~= s@);
    }
    r
}

/// The needle matches `hay` exactly at position `i`.
fn match_at(hay: &[u8], needle: &[u8], i: usize) -> (r: bool)
    requires
        i + needle@.len() <= hay@.len(),
    ensures
        r == (hay@.subrange(i as int, i + needle@.len()) == needle@),
{
    let hl = hay.len();
    let mut k: usize = 0;
    while k < needle.len()
        invariant
            hl == hay@.len(),
            i + needle@.len() <= hay@.len(),
            0 <= k <= needle@.len(),
            forall|t: int| 0 <= t < k ==> hay@[i + t] == needle@[t],
        decreases needle@.len() - k,
    {
        if hay[i + k] != needle[k] {
            proof {
                assert(hay@.subrange(i as int, i + needle@.len())[k as int] == hay@[i + k]);
            }
            return false;
        }
        k = k + 1;
    }
    proof {
        assert(hay@.subrange(i as int, i + needle@.len()) =~= needle@);
    }
    true
}

/// Contiguous substring search.
fn contains_bytes(hay: &[u8], needle: &[u8]) -> (r: bool)
    ensures
        r == spec_contains(hay@, needle@),
{
    let nl = needle.len();
    let hl = hay.len();
    if nl > hl {
        return false;
    }
    if nl == 0 {
        proof {
            assert(hay@.subrange(0, 0 + needle@.len() as int) =~= needle@);
        }
        return true;
    }
    let mut i: usize = 0;
    while i <= hl - nl
        invariant
            nl == needle@.len(),
            hl == hay@.len(),
            1 <= nl <= hl,
            0 <= i <= hl - nl + 1,
            forall|j: int|
                0 <= j < i ==> #[trigger] hay@.subrange(j, j + needle@.len()) != needle@,
        decreases hl - i,
    {
        if match_at(hay, needle, i) {
            return true;
        }
        i = i + 1;
    }
    proof {
        assert forall|j: int| 0 <= j && j + needle@.len() <= hay@.len() implies #[trigger] hay@
            .subrange(j, j + needle@.len()) != needle@ by {
            assert(j < i);
        }
    }
    false
}

/// Classifies a query capture name into a highlight kind, matching
/// case-insensitively against the conventional capture-name keywords.
pub fn classify_capture_name(name: &str) -> (r: HighlightKind)
    ensures
        r == spec_classify(name.spec_bytes()),
{
    let lower = to_ascii_lower(name.as_bytes());
    let heading: [u8; 7] = [0x68u8, 0x65, 0x61, 0x64, 0x69, 0x6e, 0x67];
    let strong: [u8; 6] = [0x73u8, 0x74, 0x72, 0x6f, 0x6e, 0x67];
    let bold: [u8; 4] = [0x62u8, 0x6f, 0x6c, 0x64];
    let emphasis: [u8; 8] = [0x65u8, 0x6d, 0x70, 0x68, 0x61, 0x73, 0x69, 0x73];
    let italic: [u8; 6] = [0x69u8, 0x74, 0x61, 0x6c, 0x69, 0x63];
    let code: [u8; 4] = [0x63u8, 0x6f, 0x64, 0x65];
    let link: [u8; 4] = [0x6cu8, 0x69, 0x6e, 0x6b];
    let url: [u8; 3] = [0x75u8, 0x72, 0x6c];
    let punctuation: [u8; 11] = [0x70u8, 0x75, 0x6e, 0x63, 0x74, 0x75, 0x61, 0x74, 0x69, 0x6f, 0x6e];
    let delimiter: [u8; 9] = [0x64u8, 0x65, 0x6c, 0x69, 0x6d, 0x69, 0x74, 0x65, 0x72];
    proof {
        assert(heading@ =~= kw_heading());
        assert(strong@ =~= kw_strong());
        assert(bold@ =~= kw_bold());
        assert(emphasis@ =~= kw_emphasis());
        assert(italic@ =~= kw_italic());
        assert(code@ =~= kw_code());
        assert(link@ =~= kw_link());
        assert(url@ =~= kw_url());
        assert(punctuation@ =~= kw_punctuation());
        assert(delimiter@ =~= kw_delimiter());
    }
    if contains_bytes(lower.as_slice(), heading.as_slice()) {
        HighlightKind::Heading
    } else if contains_bytes(lower.as_slice(), strong.as_slice()) || contains_bytes(
        lower.as_slice(),
        bold.as_slice(),
    ) {
        HighlightKind::Strong
    } else if contains_bytes(lower.as_slice(), emphasis.as_slice()) || contains_bytes(
        lower.as_slice(),
        italic.as_slice(),
    ) {
        HighlightKind::Emphasis
    } else if contains_bytes(lower.as_slice(), code.as_slice()) {
        HighlightKind::Code
    } else if contains_bytes(lower.as_slice(), link.as_slice()) || contains_bytes(
        lower.as_slice(),
        url.as_slice(),
    ) {
        HighlightKind::Link
    } else if contains_bytes(lower.as_slice(), punctuation.as_slice()) || contains_bytes(
        lower.as_slice(),
        delimiter.as_slice(),
    ) {
        HighlightKind::Punctuation
    } else {
        HighlightKind::Other
    }
}

/// A raw capture survives when its byte range is non-empty, inside the
/// text, and character-boundary aligned at both ends.
pub open spec fn keep_capture(src: Seq<u8>, start: int, end: int) -> bool {
    &&& 0 <= start < end <= src.len()
    &&& is_char_boundary(src, start)
    &&& is_char_boundary(src, end)
}

/// Spans kept from the raw captures, in capture order: each surviving
/// range, classified by its capture name.
pub open spec fn spec_collect(src: Seq<u8>, caps: Seq<(Seq<u8>, int, int)>) -> Seq<HighlightSpan>
    decreases caps.len(),
{
    if caps.len() == 0 {
        Seq::empty()
    } else {
        let c = caps.last();
        let front = spec_collect(src, caps.drop_last());
        if keep_capture(src, c.1, c.2) {
            front + seq![
                HighlightSpan { start: c.1 as usize, end: c.2 as usize, kind: spec_classify(c.0) },
            ]
        } else {
            front
        }
    }
}

/// Strict order on the `(start, end)` sort key.
pub open spec fn span_key_lt(a: HighlightSpan, b: HighlightSpan) -> bool {
    a.start < b.start || (a.start == b.start && a.end
        < b.end)
}

/// Weak order on the `(start, end)` sort key.
pub open spec fn span_key_le(a: HighlightSpan, b: HighlightSpan) -> bool {
    a.start < b.start || (a.start == b.start && a.end
        <= b.end)
}

/// Stable insertion into a sorted run: `x` goes in front of the first
/// element whose key is strictly greater.
pub open spec fn spec_insert_span(x: HighlightSpan, s: Seq<HighlightSpan>) -> Seq<HighlightSpan>
    decreases s.len(),
{
    if s.len() == 0 {
        seq![x]
    } else if span_key_lt(x, s[0]) {
        seq![x] + s
    } else {
        seq![s[0]] + spec_insert_span(x, s.drop_first())
    }
}

/// Stable insertion sort by the `(start, end)` key.
pub open spec fn spec_sort_spans(s: Seq<HighlightSpan>) -> Seq<HighlightSpan>
    decreases s.len(),
{
    if s.len() == 0 {
        Seq::empty()
    } else {
        spec_insert_span(s.last(), spec_sort_spans(s.drop_last()))
    }
}

/// Inserting at the first position whose element is strictly greater is
/// exactly `spec_insert_span`.
proof fn lemma_insert_span_at(x: HighlightSpan, s: Seq<HighlightSpan>, p: int)
    requires
        0 <= p <= s.len(),
        forall|q: int| 0 <= q < p ==> !span_key_lt(x, #[trigger] s[q]),
        p < s.len() ==> span_key_lt(x, s[p]),
    ensures
        spec_insert_span(x, s) == s.insert(p, x),
    decreases s.len(),
{
    if s.len() == 0 {
        assert(spec_insert_span(x, s) =~= s.insert(p, x));
    } else if span_key_lt(x, s[0]) {
        assert(p == 0);
        assert(spec_insert_span(x, s) =~= s.insert(p, x));
    } else {
        assert(p >= 1);
        lemma_insert_span_at(x, s.drop_first(), p - 1);
        assert(spec_insert_span(x, s) =~= s.insert(p, x));
    }
}

/// Every element of an insertion-sorted run satisfies any property that
/// all the inputs satisfied.
proof fn lemma_insert_span_all(
    x: HighlightSpan,
    s: Seq<HighlightSpan>,
    p: spec_fn(HighlightSpan) -> bool,
)
    requires
        p(x),
        forall|i: int| 0 <= i < s.len() ==> p(#[trigger] s[i]),
    ensures
        forall|i: int|
            0 <= i < spec_insert_span(x, s).len() ==> p(#[trigger] spec_insert_span(x, s)[i]),
    decreases s.len(),
{
    let r = spec_insert_span(x, s);
    if s.len() == 0 {
        assert forall|i: int| 0 <= i < r.len() implies p(#[trigger] r[i]) by {
            assert(r[i] == x);
        }
    } else if span_key_lt(x, s[0]) {
        assert forall|i: int| 0 <= i < r.len() implies p(#[trigger] r[i]) by {
            if i == 0 {
                assert(r[i] == x);
            } else {
                assert(r[i] == s[i - 1]);
            }
        }
    } else {
        assert forall|i: int| 0 <= i < s.drop_first().len() implies p(
            #[trigger] s.drop_first()[i],
        ) by {
            assert(s.drop_first()[i] == s[i + 1]);
        }
        lemma_insert_span_all(x, s.drop_first(), p);
        let rest = spec_insert_span(x, s.drop_first());
        assert forall|i: int| 0 <= i < r.len() implies p(#[trigger] r[i]) by {
            if i == 0 {
                assert(r[i] == s[0]);
            } else {
                assert(r[i] == rest[i - 1]);
            }
        }
    }
}

proof fn lemma_sort_spans_all(s: Seq<HighlightSpan>, p: spec_fn(HighlightSpan) -> bool)
    requires
        forall|i: int| 0 <= i < s.len() ==> p(#[trigger] s[i]),
    ensures
        forall|i: int|
            0 <= i < spec_sort_spans(s).len() ==> p(#[trigger] spec_sort_spans(s)[i]),
    decreases s.len(),
{
    if s.len() > 0 {
        lemma_sort_spans_all(s.drop_last(), p);
        lemma_insert_span_all(s.last(), spec_sort_spans(s.drop_last()), p);
    }
}

/// The spans kept from the captures all lie inside the text on character
/// boundaries, whatever the captures were.
proof fn lemma_collect_bounds(src: Seq<u8>, caps: Seq<(Seq<u8>, int, int)>)
    requires
        src.len() <= usize::MAX,
    ensures
        forall|i: int|
            0 <= i < spec_collect(src, caps).len() ==> keep_capture(
                src,
                #[trigger] spec_collect(src, caps)[i].start as int,
                spec_collect(src, caps)[i].end as int,
            ),
    decreases caps.len(),
{
    if caps.len() > 0 {
        lemma_collect_bounds(src, caps.drop_last());
        let r = spec_collect(src, caps);
        let front = spec_collect(src, caps.drop_last());
        assert forall|i: int| 0 <= i < r.len() implies keep_capture(
            src,
            #[trigger] r[i].start as int,
            r[i].end as int,
        ) by {
            if i < front.len() {
                assert(r[i] == front[i]);
            }
        }
    }
}

/// A sorted run stays sorted when an element is inserted in key order.
proof fn lemma_insert_span_sorted(x: HighlightSpan, s: Seq<HighlightSpan>)
    requires
        forall|i: int, j: int| 0 <= i < j < s.len() ==> span_key_le(#[trigger] s[i], #[trigger] s[j]),
    ensures
        forall|i: int, j: int|
            0 <= i < j < spec_insert_span(x, s).len() ==> span_key_le(
                #[trigger] spec_insert_span(x, s)[i],
                #[trigger] spec_insert_span(x, s)[j],
            ),
    decreases s.len(),
{
    let r = spec_insert_span(x, s);
    if s.len() == 0 {
    } else if span_key_lt(x, s[0]) {
        assert forall|i: int, j: int| 0 <= i < j < r.len() implies span_key_le(r[i], r[j]) by {
            if i == 0 {
                assert(r[j] == s[j - 1]);
                if j > 1 {
                    assert(span_key_le(s[0], s[j - 1]));
                }
            } else {
                assert(r[i] == s[i - 1] && r[j] == s[j - 1]);
            }
        }
    } else {
        lemma_insert_span_sorted(x, s.drop_first());
        let rest = spec_insert_span(x, s.drop_first());
        assert forall|i: int, j: int| 0 <= i < j < r.len() implies span_key_le(r[i], r[j]) by {
            if i == 0 {
                assert(r[j] == rest[j - 1]);
                lemma_insert_span_all(
                    x,
                    s.drop_first(),
                    |e: HighlightSpan| span_key_le(s[0], e),
                );
            } else {
                assert(r[i] == rest[i - 1] && r[j] == rest[j - 1]);
            }
        }
    }
}

/// Insertion sort sorts: the result is ordered by the `(start, end)` key.
proof fn lemma_sort_spans_sorted(s: Seq<HighlightSpan>)
    ensures
        forall|i: int, j: int|
            0 <= i < j < spec_sort_spans(s).len() ==> span_key_le(
                #[trigger] spec_sort_spans(s)[i],
                #[trigger] spec_sort_spans(s)[j],
            ),
    decreases s.len(),
{
    if s.len() > 0 {
        lemma_sort_spans_sorted(s.drop_last());
        lemma_insert_span_sorted(s.last(), spec_sort_spans(s.drop_last()));
    }
}

/// Byte view of raw captures: each capture name as its UTF-8 bytes beside
/// the capture's byte range.
pub open spec fn captures_view(caps: Seq<(String, usize, usize)>) -> Seq<(Seq<u8>, int, int)> {
    caps.map_values(|c: (String, usize, usize)| (encode_utf8(c.0@), c.1 as int, c.2 as int))
}

/// Builds the ordered highlight spans from raw query captures: keeps the
/// in-bounds boundary-aligned ranges, classifies each by its capture name,
/// and insertion-sorts the result by `(start, end)`.
pub fn spans_from_captures(source: &str, captures: &Vec<(String, usize, usize)>) -> (r: Vec<
    HighlightSpan,
>)
    ensures
        r@ == spec_sort_spans(spec_collect(source.spec_bytes(), captures_view(captures@))),
{
    let len = source.as_bytes().len();
    let mut out: Vec<HighlightSpan> = Vec::new();
    let mut k: usize = 0;
    while k < captures.len()
        invariant
            0 <= k <= captures@.len(),
            len == source.spec_bytes().len(),
            out@ == spec_sort_spans(
                spec_collect(source.spec_bytes(), captures_view(captures@.take(k as int))),
            ),
        decreases captures@.len() - k,
    {
        let ghost src = source.spec_bytes();
        let ghost prev = captures_view(captures@.take(k as int));
        let ghost cur = captures_view(captures@.take(k as int + 1));
        proof {
            assert(cur.drop_last() =~= prev);
            assert(cur.last() == (
                encode_utf8(captures@[k as int].0@),
                captures@[k as int].1 as int,
                captures@[k as int].2 as int,
            ));
        }
        let c = &captures[k];
        let start = c.1;
        let end = c.2;
        if start < end && end <= len && source.is_char_boundary(start) && source.is_char_boundary(
            end,
        ) {
            let kind = classify_capture_name(c.0.as_str());
            let span = HighlightSpan { start, end, kind };
            proof {
                assert(keep_capture(src, cur.last().1, cur.last().2));
                assert(span == (HighlightSpan {
                    start: cur.last().1 as usize,
                    end: cur.last().2 as usize,
                    kind: spec_classify(cur.last().0),
                }));
                assert(spec_collect(src, cur) =~= spec_collect(src, prev) + seq![span]);
                assert((spec_collect(src, prev) + seq![span]).drop_last() =~= spec_collect(
                    src,
                    prev,
                ));
            }
            let mut p: usize = 0;
            while p < out.len() && !(span.start < out[p].start || (span.start == out[p].start
                && span.end < out[p].end))
                invariant
                    0 <= p <= out@.len(),
                    forall|q: int| 0 <= q < p ==> !span_key_lt(span, #[trigger] out@[q]),
                decreases out@.len() - p,
            {
                p = p + 1;
            }
            proof {
                lemma_insert_span_at(span, out@, p as int);
            }
            out.insert(p, span);
            proof {
                assert(out@ == spec_sort_spans(spec_collect(src, cur)));
            }
        } else {
            proof {
                assert(!keep_capture(src, cur.last().1, cur.last().2));
                assert(spec_collect(src, cur) =~= spec_collect(src, prev));
            }
        }
        k = k + 1;
    }
    proof {
        assert(captures@.take(captures@.len() as int) =~= captures@);
    }
    out
}

/// What the Markdown block highlight query captures in `src`: for each
/// capture in query order, the capture name's bytes beside the captured
/// node's byte range. The grammar and query are fixed and parsing is
/// deterministic, so this depends on the source bytes alone.
pub uninterp spec fn md_captures(src: Seq<u8>) -> Seq<(Seq<u8>, int, int)>;

/// Declares tree_sitter's syntax tree type so that it can pass between
/// the trusted functions below; the tree is opaque to the contracts.
#[verifier::external_type_specification]
#[verifier::external_body]
pub struct ExTree(tree_sitter::Tree);

/// Relies on tree_sitter::Parser with tree_sitter_md's block grammar:
/// parses the source into a Markdown syntax tree, or yields nothing when
/// the grammar cannot be loaded or parsing is cancelled.
#[verifier::external_body]
fn md_parse(source: &str) -> Option<tree_sitter::Tree> {
    let mut parser = tree_sitter::Parser::new();
    if parser.set_language(&tree_sitter_md::LANGUAGE.into()).is_err() {
        return None;
    }
    parser.parse(source, None)
}

/// Relies on tree_sitter's Query and QueryCursor over tree_sitter_md's
/// block highlight query: yields each query capture's name and byte range
/// in capture order, or nothing when the query fails to compile.
#[verifier::external_body]
fn md_collect_captures(tree: &tree_sitter::Tree, source: &str) -> Vec<(String, usize, usize)> {
    let lang: tree_sitter::Language = tree_sitter_md::LANGUAGE.into();
    let query = match tree_sitter::Query::new(&lang, tree_sitter_md::HIGHLIGHT_QUERY_BLOCK) {
        Ok(q) => q,
        Err(_) => return Vec::new(),
    };
    let mut cursor = tree_sitter::QueryCursor::new();
    let mut captures = cursor.captures(&query, tree.root_node(), source.as_bytes());
    let mut out = Vec::new();
    while let Some((m, idx)) = captures.next() {
        let capture = m.captures()[*idx];
        let name = query.capture_names().get(capture.index as usize).unwrap_or(&"").to_string();
        out.push((name, capture.node.start_byte(), capture.node.end_byte()));
    }
    out
}

/// Relies on the two tree_sitter calls above. The grammar and the query
/// are compile-time constants and parsing is deterministic (a failure, and
/// with it the empty capture list, is determined by the source as well),
/// so the captures are a function of the source bytes alone; `md_captures`
/// names that function.
#[verifier::external_body]
fn md_raw_captures(source: &str) -> (r: Vec<(String, usize, usize)>)
    ensures
        captures_view(r@) == md_captures(source.spec_bytes()),
{
    match md_parse(source) {
        Some(tree) => md_collect_captures(&tree, source),
        None => Vec::new(),
    }
}

/// The spans `highlight_markdown` owes: none for empty input, otherwise
/// the query captures filtered, classified and sorted.
pub open spec fn spec_highlight(src: Seq<u8>) -> Seq<HighlightSpan> {
    if src.len() == 0 {
        Seq::empty()
    } else {
        spec_sort_spans(spec_collect(src, md_captures(src)))
    }
}

/// Highlight spans for rendering `source` as Markdown: the block grammar's
/// query captures, classified by capture name, restricted to non-empty
/// in-bounds character-aligned ranges, and sorted by `(start, end)`. Empty
/// input or a parser failure gives no spans rather than an error.
pub fn highlight_markdown(source: &str) -> (r: Vec<HighlightSpan>)
    ensures
        r@ == spec_highlight(source.spec_bytes()),
        forall|i: int|
            0 <= i < r@.len() ==> keep_capture(
                source.spec_bytes(),
                #[trigger] r@[i].start as int,
                r@[i].end as int,
            ),
        forall|i: int, j: int|
            0 <= i < j < r@.len() ==> span_key_le(#[trigger] r@[i], #[trigger] r@[j]),
        source.spec_bytes().len() == 0 ==> r@.len() == 0,
{
    let ghost src = source.spec_bytes();
    if source.as_bytes().len() == 0 {
        return Vec::new();
    }
    let caps = md_raw_captures(source);
    let r = spans_from_captures(source, &caps);
    proof {
        let coll = spec_collect(src, md_captures(src));
        let pfn = |e: HighlightSpan| keep_capture(src, e.start as int, e.end as int);
        lemma_collect_bounds(src, md_captures(src));
        assert forall|i: int| 0 <= i < coll.len() implies pfn(#[trigger] coll[i]) by {
            assert(keep_capture(src, coll[i].start as int, coll[i].end as int));
        }
        lemma_sort_spans_all(coll, pfn);
        assert forall|i: int| 0 <= i < r@.len() implies keep_capture(
            src,
            #[trigger] r@[i].start as int,
            r@[i].end as int,
        ) by {
            assert(pfn(r@[i]));
        }
        lemma_sort_spans_sorted(coll);
    }
    r
}

} // verus!
