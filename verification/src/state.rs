//! The text buffer and selection model.
//!
//! `EditorState` owns the text together with an anchor/cursor pair. The
//! anchor is the fixed end of the selection and the cursor is the moving
//! end; the selection is empty exactly when they coincide. Every mutation
//! clamps and boundary-snaps its inputs instead of failing, so no operation
//! panics; afterwards both endpoints are back inside the text and on
//! character boundaries.
//!
//! The mathematical model of a buffer is `BufView`: the UTF-8 bytes of the
//! text plus the two endpoint offsets. Each operation's postcondition states
//! the whole new view as a function of the old one.

use std::ops::Range;
use vstd::prelude::*;
use vstd::string::StringExecFns;
use vstd::string::StringSliceAdditionalSpecFns;
use vstd::utf8::{encode_utf8, is_char_boundary, valid_utf8};

use crate::boundary::{
    clamp_len, lemma_snap_down_props, lemma_snap_up_props, next_char_boundary,
    normalize_range_to_char_boundaries, prev_char_boundary, snap_down, snap_up,
    spec_next_boundary, spec_norm_end, spec_norm_start, spec_prev_boundary,
};

verus! {

/// Mathematical view of a buffer: the text as its UTF-8 bytes, and the two
/// selection endpoints as byte offsets.
#[verifier::ext_equal]
pub struct BufView {
    pub text: Seq<u8>,
    pub anchor: int,
    pub cursor: int,
}

/// Lower end of the selection range.
pub open spec fn sel_start(v: BufView) -> int {
    if v.anchor <= v.cursor {
        v.anchor
    } else {
        v.cursor
    }
}

/// Upper end of the selection range.
pub open spec fn sel_end(v: BufView) -> int {
    if v.anchor <= v.cursor {
        v.cursor
    } else {
        v.anchor
    }
}

/// Invariant of the buffer: the text is valid UTF-8 whose length fits the
/// machine, and both selection endpoints lie inside it on character
/// boundaries.
pub open spec fn inv(v: BufView) -> bool {
    &&& valid_utf8(v.text)
    &&& v.text.len() <= usize::MAX
    &&& 0 <= v.anchor <= v.text.len()
    &&& 0 <= v.cursor <= v.text.len()
    &&& is_char_boundary(v.text, v.anchor)
    &&& is_char_boundary(v.text, v.cursor)
}

/// View of the freshly created, empty buffer.
pub open spec fn empty_view() -> BufView {
    BufView { text: Seq::empty(), anchor: 0, cursor: 0 }
}

/// Effect of `replace_range`: normalize the byte range to character
/// boundaries (clamp, swap if reversed, widen outward), splice `ins` in, and
/// collapse the selection to just after the insertion.
pub open spec fn spec_replace_range(v: BufView, a: int, b: int, ins: Seq<u8>) -> BufView {
    let ns = spec_norm_start(v.text, a, b);
    let ne = spec_norm_end(v.text, a, b);
    BufView {
        text: v.text.subrange(0, ns) + ins + v.text.subrange(ne, v.text.len() as int),
        anchor: ns + ins.len(),
        cursor: ns + ins.len(),
    }
}

/// Effect of `insert_str`: replace the selection (or the cursor point) with
/// the inserted bytes.
pub open spec fn spec_insert(v: BufView, ins: Seq<u8>) -> BufView {
    spec_replace_range(v, sel_start(v), sel_end(v), ins)
}

/// Effect of `backspace`: delete the selection if non-empty, else the
/// character just before the cursor, else nothing at the start of the text.
pub open spec fn spec_backspace(v: BufView) -> BufView {
    if sel_start(v) < sel_end(v) {
        spec_replace_range(v, sel_start(v), sel_end(v), Seq::empty())
    } else if v.cursor == 0 {
        v
    } else {
        spec_replace_range(v, spec_prev_boundary(v.text, v.cursor), v.cursor, Seq::empty())
    }
}

/// Effect of `delete_forward`: delete the selection if non-empty, else the
/// character just after the cursor, else nothing at the end of the text.
pub open spec fn spec_delete_forward(v: BufView) -> BufView {
    if sel_start(v) < sel_end(v) {
        spec_replace_range(v, sel_start(v), sel_end(v), Seq::empty())
    } else if v.cursor >= v.text.len() {
        v
    } else {
        spec_replace_range(v, v.cursor, spec_next_boundary(v.text, v.cursor), Seq::empty())
    }
}

/// Effect of `move_left`: without extension a non-empty selection collapses
/// to its lower edge; otherwise the cursor steps to the previous character
/// boundary, and the anchor follows unless the selection is being extended.
pub open spec fn spec_move_left(v: BufView, extend: bool) -> BufView {
    if !extend && sel_start(v) < sel_end(v) {
        BufView { text: v.text, anchor: sel_start(v), cursor: sel_start(v) }
    } else {
        let c = spec_prev_boundary(v.text, v.cursor);
        BufView {
            text: v.text,
            anchor: if extend {
                v.anchor
            } else {
                c
            },
            cursor: c,
        }
    }
}

/// Effect of `move_right`, the mirror image of `spec_move_left`.
pub open spec fn spec_move_right(v: BufView, extend: bool) -> BufView {
    if !extend && sel_start(v) < sel_end(v) {
        BufView { text: v.text, anchor: sel_end(v), cursor: sel_end(v) }
    } else {
        let c = spec_next_boundary(v.text, v.cursor);
        BufView {
            text: v.text,
            anchor: if extend {
                v.anchor
            } else {
                c
            },
            cursor: c,
        }
    }
}

/// Effect of `select_all`: anchor at the start, cursor at the end.
pub open spec fn spec_select_all(v: BufView) -> BufView {
    BufView { text: v.text, anchor: 0, cursor: v.text.len() as int }
}

/// Effect of `set_text`: the new text wholesale, with the cursor clamped to
/// the new length, snapped down to a character boundary, and the selection
/// collapsed there.
pub open spec fn spec_set_text(v: BufView, t: Seq<u8>) -> BufView {
    let c = snap_down(t, clamp_len(t, v.cursor));
    BufView { text: t, anchor: c, cursor: c }
}

/// Effect of `collapse_selection`: the anchor joins the cursor.
pub open spec fn spec_collapse(v: BufView) -> BufView {
    BufView { text: v.text, anchor: v.cursor, cursor: v.cursor }
}

/// Effect of `set_selection`: both endpoints clamped to the text and
/// snapped down to character boundaries.
pub open spec fn spec_set_selection(v: BufView, a: int, c: int) -> BufView {
    BufView {
        text: v.text,
        anchor: snap_down(v.text, clamp_len(v.text, a)),
        cursor: snap_down(v.text, clamp_len(v.text, c)),
    }
}

/// Effect of `set_cursor`: the clamped, snapped offset with the selection
/// collapsed onto it.
pub open spec fn spec_set_cursor(v: BufView, o: int) -> BufView {
    let c = snap_down(v.text, clamp_len(v.text, o));
    BufView { text: v.text, anchor: c, cursor: c }
}

/// UTF-8 encoding distributes over concatenation of character sequences.
pub proof fn lemma_encode_utf8_concat(c1: Seq<char>, c2: Seq<char>)
    ensures
        encode_utf8(c1 + c2) == encode_utf8(c1) + encode_utf8(c2),
    decreases c1.len(),
{
    if c1.len() == 0 {
        assert(c1 + c2 =~= c2);
        assert(encode_utf8(c1) + encode_utf8(c2) =~= encode_utf8(c2));
    } else {
        lemma_encode_utf8_concat(c1.drop_first(), c2);
        assert((c1 + c2).drop_first() =~= c1.drop_first() + c2);
        assert((c1 + c2)[0] == c1[0]);
        assert(encode_utf8(c1 + c2) =~= encode_utf8(c1) + encode_utf8(c2));
    }
}

/// A position inside a valid text is a character boundary exactly when its
/// byte is not a continuation byte; the two ends always are boundaries.
pub proof fn lemma_boundary_from_byte(s: Seq<u8>, i: int)
    requires
        valid_utf8(s),
        0 <= i <= s.len(),
    ensures
        i == 0 || i == s.len() || (is_char_boundary(s, i) <==> !vstd::utf8::is_continuation_byte(
            s[i],
        )),
        i == 0 ==> is_char_boundary(s, i),
        i == s.len() ==> is_char_boundary(s, i),
{
    vstd::utf8::is_char_boundary_start_end_of_seq(s);
    if 0 < i < s.len() {
        vstd::utf8::is_char_boundary_iff_not_is_continuation_byte(s, i);
    }
}

/// Replacing a normalized range keeps the invariant: the spliced text is
/// valid UTF-8 and the collapsed selection sits on a boundary.
proof fn lemma_replace_ok(v: BufView, a: int, b: int, ins: Seq<u8>)
    requires
        inv(v),
        valid_utf8(ins),
        0 <= a,
        0 <= b,
        v.text.len() + ins.len() <= usize::MAX,
    ensures
        inv(spec_replace_range(v, a, b, ins)),
        spec_norm_start(v.text, a, b) <= spec_norm_end(v.text, a, b),
        spec_norm_end(v.text, a, b) <= v.text.len(),
        0 <= spec_norm_start(v.text, a, b),
        is_char_boundary(v.text, spec_norm_start(v.text, a, b)),
        is_char_boundary(v.text, spec_norm_end(v.text, a, b)),
        spec_replace_range(v, a, b, ins).text.len() == v.text.len() - (spec_norm_end(v.text, a, b)
            - spec_norm_start(v.text, a, b)) + ins.len(),
{
    let s = v.text;
    let ns = spec_norm_start(s, a, b);
    let ne = spec_norm_end(s, a, b);
    let lo = if clamp_len(s, a) > clamp_len(s, b) {
        clamp_len(s, b)
    } else {
        clamp_len(s, a)
    };
    let hi = if clamp_len(s, a) > clamp_len(s, b) {
        clamp_len(s, a)
    } else {
        clamp_len(s, b)
    };
    lemma_snap_down_props(s, lo);
    lemma_snap_up_props(s, hi);
    let head = s.subrange(0, ns);
    let tail = s.subrange(ne, s.len() as int);
    vstd::utf8::valid_utf8_split(s, ns);
    vstd::utf8::valid_utf8_split(s, ne);
    vstd::utf8::valid_utf8_concat(ins, tail);
    vstd::utf8::valid_utf8_concat(head, ins + tail);
    let t = spec_replace_range(v, a, b, ins).text;
    assert(t =~= head + (ins + tail));
    assert(valid_utf8(t));
    // The collapsed selection lands where the old tail begins.
    let c = ns + ins.len();
    if tail.len() == 0 {
        assert(c == t.len());
        lemma_boundary_from_byte(t, c);
    } else {
        lemma_boundary_from_byte(s, ne);
        assert(t[c] == tail[0]);
        assert(tail[0] == s[ne]);
        if ne < s.len() {
            lemma_boundary_from_byte(t, c);
        }
    }
}

/// The text buffer: UTF-8 text plus an anchor/cursor selection. See the
/// module documentation for the invariants.
#[derive(Debug, Clone)]
pub struct EditorState {
    text: String,
    anchor: usize,
    cursor: usize,
}

impl View for EditorState {
    type V = BufView;

    closed spec fn view(&self) -> BufView {
        BufView {
            text: encode_utf8(self.text@),
            anchor: self.anchor as int,
            cursor: self.cursor as int,
        }
    }
}

impl Default for EditorState {
    /// The empty buffer with a collapsed selection at offset 0.
    fn default() -> (r: Self)
        ensures
            r@ == empty_view(),
            r.wf(),
    {
        let r = EditorState { text: String::new(), anchor: 0, cursor: 0 };
        proof {
            assert(encode_utf8(r.text@) =~= Seq::<u8>::empty());
            assert(r@ =~= empty_view());
            vstd::utf8::is_char_boundary_start_end_of_seq(r@.text);
        }
        r
    }
}

impl EditorState {
    /// The buffer's invariant, restated on the concrete type.
    pub open spec fn wf(&self) -> bool {
        inv(self@)
    }

    /// Creates an empty buffer.
    pub fn new() -> (r: Self)
        ensures
            r@ == empty_view(),
            r.wf(),
    {
        Self::default()
    }

    /// The buffer's text. Its UTF-8 bytes are the model the contracts
    /// speak of.
    pub fn text(&self) -> (r: &str)
        ensures
            r.spec_bytes() == self@.text,
            r@ == self.text_chars(),
    {
        self.text.as_str()
    }

    /// The characters of the buffer's text (its byte model is `self@.text`).
    pub closed spec fn text_chars(&self) -> Seq<char> {
        self.text@
    }

    /// The cursor's byte offset.
    pub fn cursor(&self) -> (r: usize)
        ensures
            r == self@.cursor,
    {
        self.cursor
    }

    /// The anchor's byte offset.
    pub fn anchor(&self) -> (r: usize)
        ensures
            r == self@.anchor,
    {
        self.anchor
    }

    /// The selection as an ordered byte range (empty iff anchor == cursor).
    pub fn selection_range(&self) -> (r: Range<usize>)
        ensures
            r.start == sel_start(self@),
            r.end == sel_end(self@),
    {
        let start = if self.anchor <= self.cursor {
            self.anchor
        } else {
            self.cursor
        };
        let end = if self.anchor <= self.cursor {
            self.cursor
        } else {
            self.anchor
        };
        start..end
    }

    /// True when the cursor sits before the anchor.
    pub fn selection_reversed(&self) -> (r: bool)
        ensures
            r == (self@.cursor < self@.anchor),
    {
        self.cursor < self.anchor
    }

    /// Replaces the text wholesale; the cursor is clamped to the new length
    /// (and snapped to a character boundary) and the selection collapses.
    pub fn set_text(&mut self, text: String)
        requires
            encode_utf8(text@).len() <= usize::MAX,
        ensures
            final(self)@ == spec_set_text(old(self)@, encode_utf8(text@)),
            final(self).wf(),
    {
        proof {
            vstd::utf8::encode_utf8_valid_utf8(text@);
        }
        let r = normalize_range_to_char_boundaries(text.as_str(), self.cursor..self.cursor);
        let c = r.start;
        self.text = text;
        self.cursor = c;
        self.anchor = c;
        proof {
            assert(self@ =~= spec_set_text(old(self)@, encode_utf8(self.text@)));
        }
    }

    /// Moves the anchor onto the cursor, emptying the selection.
    pub fn collapse_selection(&mut self)
        requires
            old(self).wf(),
        ensures
            final(self)@ == spec_collapse(old(self)@),
            final(self).wf(),
    {
        self.anchor = self.cursor;
        proof {
            assert(self@ =~= spec_collapse(old(self)@));
        }
    }

    /// Replaces the current selection (or the cursor point) with `s`.
    pub fn insert_str(&mut self, s: &str)
        requires
            old(self).wf(),
            old(self)@.text.len() + s.spec_bytes().len() <= usize::MAX,
        ensures
            final(self)@ == spec_insert(old(self)@, s.spec_bytes()),
            final(self).wf(),
    {
        let range = self.selection_range();
        self.replace_range(range, s);
    }

    /// Deletes the selection, or the single character before the cursor;
    /// does nothing at the start of the text.
    pub fn backspace(&mut self)
        requires
            old(self).wf(),
        ensures
            final(self)@ == spec_backspace(old(self)@),
            final(self).wf(),
    {
        proof {
            reveal_strlit("");
            assert(encode_utf8(""@) =~= Seq::<u8>::empty());
        }
        let selection = self.selection_range();
        if selection.start < selection.end {
            self.replace_range(selection, "");
            return ;
        }
        if self.cursor == 0 {
            return ;
        }
        let prev = prev_char_boundary(self.text.as_str(), self.cursor);
        let cur = self.cursor;
        self.replace_range(prev..cur, "");
    }

    /// Deletes the selection, or the single character after the cursor;
    /// does nothing at the end of the text.
    pub fn delete_forward(&mut self)
        requires
            old(self).wf(),
        ensures
            final(self)@ == spec_delete_forward(old(self)@),
            final(self).wf(),
    {
        proof {
            reveal_strlit("");
            assert(encode_utf8(""@) =~= Seq::<u8>::empty());
        }
        let selection = self.selection_range();
        if selection.start < selection.end {
            self.replace_range(selection, "");
            return ;
        }
        if self.cursor >= self.text.as_str().len() {
            return ;
        }
        let next = next_char_boundary(self.text.as_str(), self.cursor);
        let cur = self.cursor;
        self.replace_range(cur..next, "");
    }

    /// Moves the cursor one character left. Without `extend_selection` a
    /// non-empty selection first collapses to its lower edge; with it the
    /// anchor stays put and only the cursor moves.
    pub fn move_left(&mut self, extend_selection: bool)
        requires
            old(self).wf(),
        ensures
            final(self)@ == spec_move_left(old(self)@, extend_selection),
            final(self).wf(),
    {
        if !extend_selection {
            let selection = self.selection_range();
            if selection.start < selection.end {
                self.cursor = selection.start;
                self.anchor = self.cursor;
                proof {
                    assert(self@ =~= spec_move_left(old(self)@, extend_selection));
                }
                return ;
            }
        }
        self.cursor = prev_char_boundary(self.text.as_str(), self.cursor);
        if !extend_selection {
            self.anchor = self.cursor;
        }
        proof {
            assert(self@ =~= spec_move_left(old(self)@, extend_selection));
        }
    }

    /// Moves the cursor one character right, the mirror image of
    /// `move_left`.
    pub fn move_right(&mut self, extend_selection: bool)
        requires
            old(self).wf(),
        ensures
            final(self)@ == spec_move_right(old(self)@, extend_selection),
            final(self).wf(),
    {
        if !extend_selection {
            let selection = self.selection_range();
            if selection.start < selection.end {
                self.cursor = selection.end;
                self.anchor = self.cursor;
                proof {
                    assert(self@ =~= spec_move_right(old(self)@, extend_selection));
                }
                return ;
            }
        }
        self.cursor = next_char_boundary(self.text.as_str(), self.cursor);
        if !extend_selection {
            self.anchor = self.cursor;
        }
        proof {
            assert(self@ =~= spec_move_right(old(self)@, extend_selection));
        }
    }

    /// Selects the whole text, anchor first, cursor at the end.
    pub fn select_all(&mut self)
        requires
            old(self).wf(),
        ensures
            final(self)@ == spec_select_all(old(self)@),
            final(self).wf(),
    {
        self.anchor = 0;
        self.cursor = self.text.as_str().len();
        proof {
            vstd::utf8::is_char_boundary_start_end_of_seq(self@.text);
            assert(self@ =~= spec_select_all(old(self)@));
        }
    }

    /// The fundamental mutation: normalizes `range` to character boundaries
    /// (clamping, swapping a reversed range, widening outward), splices
    /// `new_text` in, and collapses the selection to just after it. Invalid
    /// ranges degrade to a clamped replacement, never a panic.
    pub fn replace_range(&mut self, range: Range<usize>, new_text: &str)
        requires
            old(self).wf(),
            old(self)@.text.len() + new_text.spec_bytes().len() <= usize::MAX,
        ensures
            final(self)@ == spec_replace_range(
                old(self)@,
                range.start as int,
                range.end as int,
                new_text.spec_bytes(),
            ),
            final(self).wf(),
    {
        proof {
            vstd::utf8::encode_utf8_valid_utf8(new_text@);
            lemma_replace_ok(
                old(self)@,
                range.start as int,
                range.end as int,
                new_text.spec_bytes(),
            );
        }
        let ghost bytes = self@.text;
        let ghost ns = spec_norm_start(bytes, range.start as int, range.end as int);
        let ghost ne = spec_norm_end(bytes, range.start as int, range.end as int);
        let norm = normalize_range_to_char_boundaries(self.text.as_str(), range);
        if norm.start > norm.end || norm.end > self.text.as_str().len() {
            return ;
        }
        let (head, rest) = self.text.as_str().split_at(norm.start);
        proof {
            vstd::utf8::valid_utf8_split(bytes, ns);
            lemma_boundary_from_byte(bytes, ne);
            lemma_boundary_from_byte(rest.spec_bytes(), ne - ns);
            if ne < bytes.len() {
                assert(rest.spec_bytes()[ne - ns] == bytes[ne]);
                vstd::utf8::is_char_boundary_iff_not_is_continuation_byte(bytes, ne);
            }
        }
        let (_mid, tail) = rest.split_at(norm.end - norm.start);
        let tail_len = tail.len();
        let mut next = head.to_owned();
        next.append(new_text);
        next.append(tail);
        proof {
            lemma_encode_utf8_concat(head@ + new_text@, tail@);
            lemma_encode_utf8_concat(head@, new_text@);
            assert(encode_utf8(next@) =~= head.spec_bytes() + new_text.spec_bytes()
                + tail.spec_bytes());
        }
        self.text = next;
        let new_len = self.text.as_str().len();
        let c = new_len - tail_len;
        self.cursor = c;
        self.anchor = c;
        proof {
            assert(self@.text =~= spec_replace_range(
                old(self)@,
                range.start as int,
                range.end as int,
                new_text.spec_bytes(),
            ).text);
            assert(self@ =~= spec_replace_range(
                old(self)@,
                range.start as int,
                range.end as int,
                new_text.spec_bytes(),
            ));
        }
    }

    /// Places both selection endpoints directly; each is clamped to the
    /// text and snapped down to a character boundary.
    pub fn set_selection(&mut self, anchor: usize, cursor: usize)
        requires
            old(self).wf(),
        ensures
            final(self)@ == spec_set_selection(old(self)@, anchor as int, cursor as int),
            final(self).wf(),
    {
        let ra = normalize_range_to_char_boundaries(self.text.as_str(), anchor..anchor);
        let rc = normalize_range_to_char_boundaries(self.text.as_str(), cursor..cursor);
        self.anchor = ra.start;
        self.cursor = rc.start;
        proof {
            assert(self@ =~= spec_set_selection(old(self)@, anchor as int, cursor as int));
        }
    }

    /// Places the cursor directly (clamped and snapped) and collapses the
    /// selection onto it.
    pub fn set_cursor(&mut self, offset: usize)
        requires
            old(self).wf(),
        ensures
            final(self)@ == spec_set_cursor(old(self)@, offset as int),
            final(self).wf(),
    {
        let rc = normalize_range_to_char_boundaries(self.text.as_str(), offset..offset);
        self.cursor = rc.start;
        self.anchor = rc.start;
        proof {
            assert(self@ =~= spec_set_cursor(old(self)@, offset as int));
        }
    }
}

/// Law: selecting everything is idempotent — `select_all` twice yields the
/// same anchor/cursor pair (and text) as doing it once.
pub proof fn lemma_select_all_idempotent(v: BufView)
    ensures
        spec_select_all(spec_select_all(v)) == spec_select_all(v),
{
}

/// A single byte below 0x80 is on its own a valid UTF-8 text.
proof fn lemma_ascii_byte_valid(b: u8)
    requires
        b < 0x80,
    ensures
        valid_utf8(seq![b]),
{
    let ins: Seq<u8> = seq![b];
    assert(vstd::utf8::is_leading_byte_width_1(b));
    assert(ins.subrange(0, 0) =~= Seq::<u8>::empty());
    assert(vstd::utf8::partial_valid_utf8(ins, 0));
    vstd::utf8::partial_valid_utf8_extend_ascii_block(ins, 0, 1);
    assert(ins.subrange(0, 1) =~= ins);
}

/// Law: inserting a single one-byte character at a collapsed selection and
/// then pressing backspace restores the previous text and cursor exactly.
pub proof fn lemma_insert_then_backspace(v: BufView, b: u8)
    requires
        inv(v),
        v.anchor == v.cursor,
        b < 0x80,
        v.text.len() < usize::MAX,
    ensures
        spec_backspace(spec_insert(v, seq![b])) == v,
{
    let s = v.text;
    let len = s.len() as int;
    let c = v.cursor;
    let ins: Seq<u8> = seq![b];
    lemma_ascii_byte_valid(b);
    lemma_replace_ok(v, c, c, ins);
    // Inserting at the collapsed selection splices at the cursor itself.
    assert(snap_down(s, c) == c);
    assert(snap_up(s, c) == c);
    let v1 = spec_insert(v, ins);
    let t1 = v1.text;
    assert(t1 == s.subrange(0, c) + ins + s.subrange(c, len));
    assert(t1.len() == len + 1);
    assert(v1.cursor == c + 1 && v1.anchor == c + 1);
    // The inserted byte sits at offset c, so c is still a boundary.
    assert(t1[c] == b);
    lemma_boundary_from_byte(t1, c);
    assert(is_char_boundary(t1, c));
    // Backspace deletes exactly the inserted byte: the previous boundary
    // before c + 1 is c, and c + 1 is a boundary of the spliced text.
    assert(spec_prev_boundary(t1, c + 1) == snap_down(t1, c));
    assert(snap_down(t1, c) == c);
    if c + 1 < t1.len() {
        assert(t1[c + 1] == s[c]);
        lemma_boundary_from_byte(s, c);
        lemma_boundary_from_byte(t1, c + 1);
    } else {
        lemma_boundary_from_byte(t1, c + 1);
    }
    assert(is_char_boundary(t1, c + 1));
    let v2 = spec_backspace(v1);
    assert(v2 == spec_replace_range(v1, c, c + 1, Seq::empty()));
    assert(snap_down(t1, c) == c);
    assert(snap_up(t1, c + 1) == c + 1);
    assert(spec_norm_start(t1, c, c + 1) == c);
    assert(spec_norm_end(t1, c, c + 1) == c + 1);
    assert(v2.text =~= t1.subrange(0, c) + Seq::<u8>::empty() + t1.subrange(c + 1, len + 1));
    assert(v2.text =~= s);
    assert(v2 =~= v);
}

} // verus!
