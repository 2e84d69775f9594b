//! Delimiter segmentation scanner.
//!
//! Splits raw text into an ordered sequence of text/math/unclosed segments,
//! handling escaped delimiters, brace-nested math bodies, multi-character
//! markers and first-in-table priority when several delimiters could match at
//! the same position.

use vstd::prelude::*;
use vstd::string::StrSliceExecFns;
use vstd::string::StringExecFns;

verus! {

/// One delimiter pair: a left marker, a right marker, and whether the
/// enclosed math is typeset in display (block) mode.
#[derive(Debug, Clone)]
pub struct Delimiter {
    pub left: String,
    pub right: String,
    pub display: bool,
}

/// Mathematical model of a delimiter.
pub struct DelimView {
    pub left: Seq<char>,
    pub right: Seq<char>,
    pub display: bool,
}

impl View for Delimiter {
    type V = DelimView;

    open spec fn view(&self) -> DelimView {
        DelimView { left: self.left@, right: self.right@, display: self.display }
    }
}

/// A delimiter is well formed when both markers are non-empty.
pub open spec fn delim_wf(d: DelimView) -> bool {
    d.left.len() > 0 && d.right.len() > 0
}

/// All delimiters of a table are well formed.
pub open spec fn delims_wf(ds: Seq<DelimView>) -> bool {
    forall|i: int| 0 <= i < ds.len() ==> delim_wf(#[trigger] ds[i])
}

/// The models of a table of delimiters.
pub open spec fn delims_view(ds: Seq<Delimiter>) -> Seq<DelimView> {
    ds.map_values(|d: Delimiter| d@)
}

/// One scanned segment of the input text.
#[derive(Debug)]
pub enum Segment {
    /// Literal passthrough content.
    Text { data: String },
    /// A math fragment. `raw` is the full substring including both markers;
    /// `content` is the substring strictly between them, except for an
    /// AMS-environment body (starting with `\begin{`), where it equals `raw`.
    Math { content: String, raw: String, display: bool },
    /// A left marker with no matching right marker; `marker` holds the whole
    /// remaining input from the marker's start, which the scan abandons.
    Unclosed { marker: String },
}

/// Mathematical model of a segment.
pub enum SegView {
    Text { data: Seq<char> },
    Math { content: Seq<char>, raw: Seq<char>, display: bool },
    Unclosed { marker: Seq<char> },
}

impl View for Segment {
    type V = SegView;

    open spec fn view(&self) -> SegView {
        match self {
            Segment::Text { data } => SegView::Text { data: data@ },
            Segment::Math { content, raw, display } => SegView::Math {
                content: content@,
                raw: raw@,
                display: *display,
            },
            Segment::Unclosed { marker } => SegView::Unclosed { marker: marker@ },
        }
    }
}

/// The models of a sequence of segments.
pub open spec fn segs_view(ss: Seq<Segment>) -> Seq<SegView> {
    ss.map_values(|s: Segment| s@)
}

/// `pat` occurs in `text` starting at position `p`.
pub open spec fn matches_at(text: Seq<char>, pat: Seq<char>, p: int) -> bool {
    &&& 0 <= p
    &&& p + pat.len() <= text.len()
    &&& text.subrange(p, p + pat.len() as int) == pat
}

/// Index of the first delimiter, from table position `i` on, whose left
/// marker matches at position `p` of the text.
pub open spec fn match_idx_at(text: Seq<char>, delims: Seq<DelimView>, p: int, i: int) -> Option<
    int,
>
    decreases delims.len() - i,
{
    if i < 0 || i >= delims.len() {
        None
    } else if matches_at(text, delims[i].left, p) {
        Some(i)
    } else {
        match_idx_at(text, delims, p, i + 1)
    }
}

/// Leftmost match of any left marker at or after position `p`; ties at equal
/// position go to the delimiter listed earlier in the table. Returns the
/// match position and the table index.
pub open spec fn find_left(text: Seq<char>, delims: Seq<DelimView>, p: int) -> Option<(int, int)>
    decreases text.len() - p,
        when 0 <= p
{
    if p >= text.len() {
        None
    } else {
        match match_idx_at(text, delims, p, 0) {
            Some(i) => Some((p, i)),
            None => find_left(text, delims, p + 1),
        }
    }
}

/// Position `p` of the text is preceded by an unescaped backslash.
pub open spec fn is_escaped(text: Seq<char>, p: int) -> bool
    decreases p,
{
    if p < 1 {
        false
    } else {
        text[p - 1] == '\\' && !is_escaped(text, p - 1)
    }
}

/// Depth-tracking forward search for the right marker, starting at `j`.
/// A backslash consumes the following character unconditionally; literal
/// braces track nesting; the marker closes only at nesting depth at most 0.
pub open spec fn find_right(text: Seq<char>, right: Seq<char>, j: int, depth: int) -> Option<int>
    decreases text.len() - j,
        when 0 <= j
{
    if j >= text.len() {
        None
    } else if depth <= 0 && matches_at(text, right, j) {
        Some(j)
    } else if text[j] == '\\' {
        if j + 2 <= text.len() {
            find_right(text, right, j + 2, depth)
        } else {
            None
        }
    } else if text[j] == '{' {
        find_right(text, right, j + 1, depth + 1)
    } else if text[j] == '}' {
        find_right(text, right, j + 1, depth - 1)
    } else {
        find_right(text, right, j + 1, depth)
    }
}

/// The math body beginning at position `j` is an AMS environment block.
pub open spec fn begins_env(text: Seq<char>, j: int) -> bool {
    matches_at(text, "\\begin{"@, j)
}

/// The segments that scanning yields from cursor position `cur` to the end
/// of the text.
pub open spec fn scan_from(text: Seq<char>, delims: Seq<DelimView>, cur: int) -> Seq<SegView>
    decreases text.len() - cur,
        when 0 <= cur <= text.len() && delims_wf(delims)
        via scan_from_dec
{
    match find_left(text, delims, cur) {
        None => {
            if cur < text.len() {
                seq![SegView::Text { data: text.subrange(cur, text.len() as int) }]
            } else {
                Seq::empty()
            }
        },
        Some((p, i)) => {
            let d = delims[i];
            if is_escaped(text, p) {
                let tstart = if p - 1 >= cur {
                    p - 1
                } else {
                    cur
                };
                seq![SegView::Text { data: text.subrange(cur, tstart) + d.left }] + scan_from(
                    text,
                    delims,
                    p + d.left.len(),
                )
            } else {
                let body = p + d.left.len();
                let pre: Seq<SegView> = if cur < p {
                    seq![SegView::Text { data: text.subrange(cur, p) }]
                } else {
                    Seq::empty()
                };
                match find_right(text, d.right, body, 0) {
                    None => pre + seq![
                        SegView::Unclosed { marker: text.subrange(p, text.len() as int) },
                    ],
                    Some(r) => {
                        let rend = r + d.right.len();
                        let raw = text.subrange(p, rend);
                        let content = if begins_env(text, body) {
                            raw
                        } else {
                            text.subrange(body, r)
                        };
                        pre + seq![SegView::Math { content, raw, display: d.display }] + scan_from(
                            text,
                            delims,
                            rend,
                        )
                    },
                }
            }
        },
    }
}

#[via_fn]
proof fn scan_from_dec(text: Seq<char>, delims: Seq<DelimView>, cur: int) {
    match find_left(text, delims, cur) {
        None => {},
        Some((p, i)) => {
            lemma_find_left_some(text, delims, cur);
            let d = delims[i];
            if is_escaped(text, p) {
            } else {
                let body = p + d.left.len();
                match find_right(text, d.right, body, 0) {
                    None => {},
                    Some(r) => {
                        lemma_find_right_some(text, d.right, body, 0);
                    },
                }
            }
        },
    }
}

/// A successful left-marker search returns an in-range position at or after
/// the start, with an in-range table index whose marker matches there.
pub proof fn lemma_find_left_some(text: Seq<char>, delims: Seq<DelimView>, p0: int)
    requires
        0 <= p0,
    ensures
        match find_left(text, delims, p0) {
            Some((p, i)) => p0 <= p < text.len() && 0 <= i < delims.len() && matches_at(
                text,
                delims[i].left,
                p,
            ),
            None => true,
        },
    decreases text.len() - p0,
{
    if p0 >= text.len() {
    } else {
        match match_idx_at(text, delims, p0, 0) {
            Some(i) => {
                lemma_match_idx_some(text, delims, p0, 0);
            },
            None => {
                lemma_find_left_some(text, delims, p0 + 1);
            },
        }
    }
}

/// A successful table lookup returns an in-range index whose left marker
/// matches at the given position.
pub proof fn lemma_match_idx_some(text: Seq<char>, delims: Seq<DelimView>, p: int, ii: int)
    ensures
        match match_idx_at(text, delims, p, ii) {
            Some(i) => ii <= i < delims.len() && matches_at(text, delims[i].left, p),
            None => true,
        },
    decreases delims.len() - ii,
{
    if ii < 0 || ii >= delims.len() {
    } else if matches_at(text, delims[ii].left, p) {
    } else {
        lemma_match_idx_some(text, delims, p, ii + 1);
    }
}

/// A successful right-marker search returns a position at or after the
/// start where the marker matches.
pub proof fn lemma_find_right_some(text: Seq<char>, right: Seq<char>, j0: int, depth: int)
    requires
        0 <= j0,
    ensures
        match find_right(text, right, j0, depth) {
            Some(j) => j0 <= j && matches_at(text, right, j),
            None => true,
        },
    decreases text.len() - j0,
{
    if j0 >= text.len() {
    } else if depth <= 0 && matches_at(text, right, j0) {
    } else if text[j0] == '\\' {
        if j0 + 2 <= text.len() {
            lemma_find_right_some(text, right, j0 + 2, depth);
        }
    } else if text[j0] == '{' {
        lemma_find_right_some(text, right, j0 + 1, depth + 1);
    } else if text[j0] == '}' {
        lemma_find_right_some(text, right, j0 + 1, depth - 1);
    } else {
        lemma_find_right_some(text, right, j0 + 1, depth);
    }
}

/// The raw span of text a segment stands for: its literal data, the full
/// math substring including both markers, or the abandoned remainder after
/// an unclosed marker.
pub open spec fn seg_span(s: SegView) -> Seq<char> {
    match s {
        SegView::Text { data } => data,
        SegView::Math { content, raw, display } => raw,
        SegView::Unclosed { marker } => marker,
    }
}

/// Concatenation of the raw spans of a segment sequence, in order.
pub open spec fn reconstruct(segs: Seq<SegView>) -> Seq<char>
    decreases segs.len(),
{
    if segs.len() == 0 {
        Seq::empty()
    } else {
        seg_span(segs[0]) + reconstruct(segs.drop_first())
    }
}

proof fn lemma_reconstruct_concat(a: Seq<SegView>, b: Seq<SegView>)
    ensures
        reconstruct(a + b) == reconstruct(a) + reconstruct(b),
    decreases a.len(),
{
    if a.len() == 0 {
        assert(a + b =~= b);
        assert(reconstruct(a) + reconstruct(b) =~= reconstruct(b));
    } else {
        assert((a + b)[0] == a[0]);
        assert((a + b).drop_first() =~= a.drop_first() + b);
        lemma_reconstruct_concat(a.drop_first(), b);
        assert(seg_span(a[0]) + (reconstruct(a.drop_first()) + reconstruct(b)) =~= (seg_span(a[0])
            + reconstruct(a.drop_first())) + reconstruct(b));
    }
}

/// Round-trip law: when no left-marker occurrence in the text is escaped,
/// concatenating each segment's raw span in order reconstructs the scanned
/// text exactly.
pub proof fn lemma_round_trip(text: Seq<char>, delims: Seq<DelimView>, cur: int)
    requires
        delims_wf(delims),
        0 <= cur <= text.len(),
        forall|p: int, i: int|
            0 <= i < delims.len() && #[trigger] matches_at(text, delims[i].left, p)
                ==> !is_escaped(text, p),
    ensures
        reconstruct(scan_from(text, delims, cur)) == text.subrange(cur, text.len() as int),
    decreases text.len() - cur,
{
    let sv = scan_from(text, delims, cur);
    match find_left(text, delims, cur) {
        None => {
            if cur < text.len() {
                let whole = SegView::Text { data: text.subrange(cur, text.len() as int) };
                assert(sv =~= seq![whole]);
                assert(sv[0] == whole);
                assert(sv.drop_first() =~= Seq::<SegView>::empty());
                assert(reconstruct(Seq::<SegView>::empty()) == Seq::<char>::empty());
                assert(reconstruct(sv) =~= text.subrange(cur, text.len() as int));
            } else {
                assert(sv =~= Seq::<SegView>::empty());
                assert(reconstruct(sv) =~= text.subrange(cur, text.len() as int));
            }
        },
        Some((p, i)) => {
            lemma_find_left_some(text, delims, cur);
            assert(!is_escaped(text, p));
            let d = delims[i];
            let body = p + d.left.len();
            let pre: Seq<SegView> = if cur < p {
                seq![SegView::Text { data: text.subrange(cur, p) }]
            } else {
                Seq::empty()
            };
            assert(reconstruct(pre) == text.subrange(cur, p)) by {
                if cur < p {
                    assert(pre.drop_first() =~= Seq::<SegView>::empty());
                    assert(reconstruct(Seq::<SegView>::empty()) == Seq::<char>::empty());
                    assert(reconstruct(pre) =~= text.subrange(cur, p));
                } else {
                    assert(text.subrange(cur, p) =~= Seq::<char>::empty());
                    assert(reconstruct(pre) =~= text.subrange(cur, p));
                }
            }
            match find_right(text, d.right, body, 0) {
                None => {
                    let uncl = SegView::Unclosed { marker: text.subrange(p, text.len() as int) };
                    assert(sv == pre + seq![uncl]);
                    lemma_reconstruct_concat(pre, seq![uncl]);
                    assert(reconstruct(seq![uncl]) =~= text.subrange(p, text.len() as int)) by {
                        assert(seq![uncl].drop_first() =~= Seq::<SegView>::empty());
                        assert(reconstruct(Seq::<SegView>::empty()) == Seq::<char>::empty());
                    }
                    assert(text.subrange(cur, p) + text.subrange(p, text.len() as int)
                        =~= text.subrange(cur, text.len() as int));
                },
                Some(r) => {
                    lemma_find_right_some(text, d.right, body, 0);
                    let rend = r + d.right.len();
                    let raw = text.subrange(p, rend);
                    let content = if begins_env(text, body) {
                        raw
                    } else {
                        text.subrange(body, r)
                    };
                    let math = SegView::Math { content, raw, display: d.display };
                    assert(sv == (pre + seq![math]) + scan_from(text, delims, rend));
                    lemma_round_trip(text, delims, rend);
                    lemma_reconstruct_concat(pre + seq![math], scan_from(text, delims, rend));
                    lemma_reconstruct_concat(pre, seq![math]);
                    assert(reconstruct(seq![math]) =~= raw) by {
                        assert(seq![math].drop_first() =~= Seq::<SegView>::empty());
                        assert(reconstruct(Seq::<SegView>::empty()) == Seq::<char>::empty());
                    }
                    assert((text.subrange(cur, p) + text.subrange(p, rend)) + text.subrange(
                        rend,
                        text.len() as int,
                    ) =~= text.subrange(cur, text.len() as int));
                },
            }
        },
    }
}

/// The text from position `cur` on with exactly the escaping backslashes
/// removed: each backslash that stands immediately (and unescaped) before a
/// left-marker occurrence that the scan recognizes. No segments appear here:
/// this characterizes the dropped characters independently.
pub open spec fn erase_escapes(text: Seq<char>, delims: Seq<DelimView>, cur: int) -> Seq<char>
    decreases text.len() - cur,
        when 0 <= cur <= text.len() && delims_wf(delims)
        via erase_escapes_dec
{
    match find_left(text, delims, cur) {
        None => text.subrange(cur, text.len() as int),
        Some((p, i)) => {
            let d = delims[i];
            let lend = p + d.left.len();
            if is_escaped(text, p) {
                let tstart = if p - 1 >= cur {
                    p - 1
                } else {
                    cur
                };
                (text.subrange(cur, tstart) + text.subrange(p, lend)) + erase_escapes(
                    text,
                    delims,
                    lend,
                )
            } else {
                match find_right(text, d.right, lend, 0) {
                    None => text.subrange(cur, text.len() as int),
                    Some(r) => text.subrange(cur, r + d.right.len()) + erase_escapes(
                        text,
                        delims,
                        r + d.right.len(),
                    ),
                }
            }
        },
    }
}

#[via_fn]
proof fn erase_escapes_dec(text: Seq<char>, delims: Seq<DelimView>, cur: int) {
    match find_left(text, delims, cur) {
        None => {},
        Some((p, i)) => {
            lemma_find_left_some(text, delims, cur);
            let d = delims[i];
            if is_escaped(text, p) {
            } else {
                match find_right(text, d.right, p + d.left.len(), 0) {
                    None => {},
                    Some(r) => {
                        lemma_find_right_some(text, d.right, p + d.left.len(), 0);
                    },
                }
            }
        },
    }
}

/// Round-trip law, in full: concatenating each segment's raw span in order
/// always rebuilds the scanned text with exactly the escaping backslashes
/// removed.
pub proof fn lemma_round_trip_spans(text: Seq<char>, delims: Seq<DelimView>, cur: int)
    requires
        delims_wf(delims),
        0 <= cur <= text.len(),
    ensures
        reconstruct(scan_from(text, delims, cur)) == erase_escapes(text, delims, cur),
    decreases text.len() - cur,
{
    let sv = scan_from(text, delims, cur);
    match find_left(text, delims, cur) {
        None => {
            if cur < text.len() {
                let whole = SegView::Text { data: text.subrange(cur, text.len() as int) };
                assert(sv =~= seq![whole]);
                assert(sv[0] == whole);
                assert(sv.drop_first() =~= Seq::<SegView>::empty());
                assert(reconstruct(Seq::<SegView>::empty()) == Seq::<char>::empty());
                assert(reconstruct(sv) =~= text.subrange(cur, text.len() as int));
            } else {
                assert(sv =~= Seq::<SegView>::empty());
                assert(reconstruct(sv) =~= text.subrange(cur, text.len() as int));
            }
        },
        Some((p, i)) => {
            lemma_find_left_some(text, delims, cur);
            let d = delims[i];
            let lend = p + d.left.len();
            if is_escaped(text, p) {
                let tstart = if p - 1 >= cur {
                    p - 1
                } else {
                    cur
                };
                assert(text.subrange(p, lend) == d.left);
                let head = SegView::Text { data: text.subrange(cur, tstart) + d.left };
                assert(sv == seq![head] + scan_from(text, delims, lend));
                lemma_reconstruct_concat(seq![head], scan_from(text, delims, lend));
                assert(reconstruct(seq![head]) =~= text.subrange(cur, tstart) + d.left) by {
                    assert(seq![head].drop_first() =~= Seq::<SegView>::empty());
                    assert(reconstruct(Seq::<SegView>::empty()) == Seq::<char>::empty());
                }
                lemma_round_trip_spans(text, delims, lend);
            } else {
                let pre: Seq<SegView> = if cur < p {
                    seq![SegView::Text { data: text.subrange(cur, p) }]
                } else {
                    Seq::empty()
                };
                assert(reconstruct(pre) == text.subrange(cur, p)) by {
                    if cur < p {
                        assert(pre.drop_first() =~= Seq::<SegView>::empty());
                        assert(reconstruct(Seq::<SegView>::empty()) == Seq::<char>::empty());
                        assert(reconstruct(pre) =~= text.subrange(cur, p));
                    } else {
                        assert(text.subrange(cur, p) =~= Seq::<char>::empty());
                        assert(reconstruct(pre) =~= text.subrange(cur, p));
                    }
                }
                match find_right(text, d.right, lend, 0) {
                    None => {
                        let uncl = SegView::Unclosed {
                            marker: text.subrange(p, text.len() as int),
                        };
                        assert(sv == pre + seq![uncl]);
                        lemma_reconstruct_concat(pre, seq![uncl]);
                        assert(reconstruct(seq![uncl]) =~= text.subrange(p, text.len() as int))
                            by {
                            assert(seq![uncl].drop_first() =~= Seq::<SegView>::empty());
                            assert(reconstruct(Seq::<SegView>::empty()) == Seq::<char>::empty());
                        }
                        assert(text.subrange(cur, p) + text.subrange(p, text.len() as int)
                            =~= text.subrange(cur, text.len() as int));
                    },
                    Some(r) => {
                        lemma_find_right_some(text, d.right, lend, 0);
                        let rend = r + d.right.len();
                        let raw = text.subrange(p, rend);
                        let content = if begins_env(text, lend) {
                            raw
                        } else {
                            text.subrange(lend, r)
                        };
                        let math = SegView::Math { content, raw, display: d.display };
                        assert(sv == (pre + seq![math]) + scan_from(text, delims, rend));
                        lemma_round_trip_spans(text, delims, rend);
                        lemma_reconstruct_concat(pre + seq![math], scan_from(text, delims, rend));
                        lemma_reconstruct_concat(pre, seq![math]);
                        assert(reconstruct(seq![math]) =~= raw) by {
                            assert(seq![math].drop_first() =~= Seq::<SegView>::empty());
                            assert(reconstruct(Seq::<SegView>::empty()) == Seq::<char>::empty());
                        }
                        assert(text.subrange(cur, p) + text.subrange(p, rend) =~= text.subrange(
                            cur,
                            rend,
                        ));
                        assert((text.subrange(cur, rend)) + (reconstruct(
                            scan_from(text, delims, rend),
                        )) =~= (text.subrange(cur, p) + text.subrange(p, rend)) + reconstruct(
                            scan_from(text, delims, rend),
                        ));
                    },
                }
            }
        },
    }
}

/// Escaping law: a backslash immediately before the only delimiter's left
/// marker turns that occurrence into literal text. The scan emits the
/// marker's text itself as a leading Text segment (the backslash is
/// consumed, not emitted) and yields no math segment for that occurrence,
/// continuing right after the marker.
pub proof fn lemma_escape_literal(d: DelimView, tail: Seq<char>)
    requires
        delim_wf(d),
        d.left[0] != '\\',
    ensures
        ({
            let text = seq!['\\'] + d.left + tail;
            scan_from(text, seq![d], 0) == seq![SegView::Text { data: d.left }] + scan_from(
                text,
                seq![d],
                1 + d.left.len() as int,
            )
        }),
{
    let text = seq!['\\'] + d.left + tail;
    let ds = seq![d];
    assert(delims_wf(ds)) by {
        assert(ds[0] == d);
    }
    assert(text[0] == '\\');
    assert(!matches_at(text, d.left, 0)) by {
        if matches_at(text, d.left, 0) {
            assert(text.subrange(0, d.left.len() as int)[0] == text[0]);
        }
    }
    assert(match_idx_at(text, ds, 0, 1) is None);
    assert(match_idx_at(text, ds, 0, 0) is None);
    assert(matches_at(text, d.left, 1)) by {
        assert(text.subrange(1, 1 + d.left.len() as int) =~= d.left);
    }
    assert(match_idx_at(text, ds, 1, 0) == Some(0int));
    assert(find_left(text, ds, 1) == Some((1int, 0int)));
    assert(find_left(text, ds, 0) == Some((1int, 0int)));
    assert(!is_escaped(text, 0));
    assert(is_escaped(text, 1));
    let head = SegView::Text { data: text.subrange(0, 0) + d.left };
    assert(scan_from(text, ds, 0) == seq![head] + scan_from(text, ds, 1 + d.left.len() as int));
    assert(text.subrange(0, 0) + d.left =~= d.left);
    assert(seq![head] =~= seq![SegView::Text { data: d.left }]);
}

/// Whether consecutive backslashes immediately before `p` leave position `p`
/// escaped: only a run of odd length does.
proof fn lemma_escape_parity(text: Seq<char>, s: int, p: int)
    requires
        0 <= s <= p <= text.len(),
        forall|j: int| s <= j < p ==> text[j] == '\\',
        s == 0 || text[s - 1] != '\\',
    ensures
        is_escaped(text, p) == ((p - s) % 2 == 1),
    decreases p - s,
{
    if p == s {
    } else {
        lemma_escape_parity(text, s, p - 1);
    }
}

fn match_at(text: &str, n: usize, pat: &str, p: usize) -> (b: bool)
    requires
        n == text@.len(),
    ensures
        b == matches_at(text@, pat@, p as int),
{
    let m = pat.unicode_len();
    if p > n || m > n - p {
        return false;
    }
    let mut k: usize = 0;
    while k < m
        invariant
            n == text@.len(),
            m == pat@.len(),
            p + m <= n,
            0 <= k <= m,
            forall|t: int| 0 <= t < k ==> text@[p + t] == pat@[t],
        decreases m - k,
    {
        if text.get_char(p + k) != pat.get_char(k) {
            proof {
                assert(text@.subrange(p as int, p + m) != pat@) by {
                    assert(text@.subrange(p as int, p + m)[k as int] == text@[p + k]);
                }
            }
            return false;
        }
        k = k + 1;
    }
    proof {
        assert(text@.subrange(p as int, p + m) =~= pat@);
    }
    true
}

fn find_left_from(text: &str, n: usize, delims: &Vec<Delimiter>, start: usize) -> (r: Option<
    (usize, usize),
>)
    requires
        n == text@.len(),
        start <= n,
    ensures
        match r {
            Some(pi) => find_left(text@, delims_view(delims@), start as int) == Some(
                (pi.0 as int, pi.1 as int),
            ) && pi.1 < delims.len() && start <= pi.0 < n,
            None => find_left(text@, delims_view(delims@), start as int) is None,
        },
{
    let ghost dv = delims_view(delims@);
    let mut p: usize = start;
    while p < n
        invariant
            n == text@.len(),
            start <= p <= n,
            dv == delims_view(delims@),
            find_left(text@, dv, start as int) == find_left(text@, dv, p as int),
        decreases n - p,
    {
        let mut i: usize = 0;
        while i < delims.len()
            invariant
                n == text@.len(),
                start <= p < n,
                0 <= i <= delims.len(),
                dv == delims_view(delims@),
                find_left(text@, dv, start as int) == find_left(text@, dv, p as int),
                match_idx_at(text@, dv, p as int, 0) == match_idx_at(text@, dv, p as int, i as int),
            decreases delims.len() - i,
        {
            proof {
                assert(dv[i as int] == delims@[i as int]@);
            }
            if match_at(text, n, delims[i].left.as_str(), p) {
                proof {
                    assert(match_idx_at(text@, dv, p as int, i as int) == Some(i as int));
                    assert(find_left(text@, dv, p as int) == Some((p as int, i as int)));
                }
                return Some((p, i));
            }
            i = i + 1;
        }
        proof {
            assert(match_idx_at(text@, dv, p as int, i as int) is None);
        }
        p = p + 1;
    }
    None
}

fn is_escaped_at(text: &str, n: usize, p: usize) -> (b: bool)
    requires
        n == text@.len(),
        p <= n,
    ensures
        b == is_escaped(text@, p as int),
{
    let mut s: usize = p;
    while s > 0 && text.get_char(s - 1) == '\\'
        invariant
            n == text@.len(),
            0 <= s <= p <= n,
            forall|j: int| s <= j < p ==> text@[j] == '\\',
        decreases s,
    {
        s = s - 1;
    }
    proof {
        lemma_escape_parity(text@, s as int, p as int);
    }
    (p - s) % 2 == 1
}

/// Mapping segments to their models commutes with appending one segment.
proof fn lemma_segs_view_push(ss: Seq<Segment>, s: Segment)
    ensures
        segs_view(ss.push(s)) == segs_view(ss).push(s@),
{
    assert(segs_view(ss.push(s)) =~= segs_view(ss).push(s@));
}

/// Turns input text into the ordered sequence of segments that the scan
/// model prescribes: literal text, math fragments with their raw spans and
/// display flags, and at most one final unclosed-marker segment.
pub fn segment(text: &str, delims: &Vec<Delimiter>) -> (segs: Vec<Segment>)
    requires
        delims_wf(delims_view(delims@)),
    ensures
        segs_view(segs@) == scan_from(text@, delims_view(delims@), 0),
{
    let ghost dv = delims_view(delims@);
    let n = text.unicode_len();
    let mut segs: Vec<Segment> = Vec::new();
    let mut cur: usize = 0;
    loop
        invariant
            n == text@.len(),
            0 <= cur <= n,
            dv == delims_view(delims@),
            delims_wf(dv),
            scan_from(text@, dv, 0) == segs_view(segs@) + scan_from(text@, dv, cur as int),
        decreases n - cur,
    {
        let ghost segs0 = segs@;
        match find_left_from(text, n, delims, cur) {
            None => {
                if cur < n {
                    let data = text.substring_char(cur, n).to_owned();
                    proof {
                        lemma_segs_view_push(segs@, Segment::Text { data });
                    }
                    segs.push(Segment::Text { data });
                    proof {
                        assert(scan_from(text@, dv, cur as int) =~= seq![
                            SegView::Text { data: text@.subrange(cur as int, n as int) },
                        ]);
                        assert(segs_view(segs@) =~= segs_view(segs0) + scan_from(
                            text@,
                            dv,
                            cur as int,
                        ));
                    }
                } else {
                    proof {
                        assert(scan_from(text@, dv, cur as int) =~= Seq::<SegView>::empty());
                        assert(segs_view(segs@) =~= segs_view(segs0) + scan_from(
                            text@,
                            dv,
                            cur as int,
                        ));
                    }
                }
                return segs;
            },
            Some((p, idx)) => {
                proof {
                    lemma_find_left_some(text@, dv, cur as int);
                    assert(dv[idx as int] == delims@[idx as int]@);
                }
                let llen = delims[idx].left.unicode_len();
                proof {
                    assert(p + llen <= n);
                }
                let lend = p + llen;
                if is_escaped_at(text, n, p) {
                    proof {
                        assert(p >= 1);
                    }
                    let tstart: usize = if p - 1 >= cur {
                        p - 1
                    } else {
                        cur
                    };
                    let mut data = text.substring_char(cur, tstart).to_owned();
                    data.append(delims[idx].left.as_str());
                    let ghost emitted = seq![
                        SegView::Text {
                            data: text@.subrange(cur as int, tstart as int) + dv[idx as int].left,
                        },
                    ];
                    proof {
                        assert(scan_from(text@, dv, cur as int) == emitted + scan_from(
                            text@,
                            dv,
                            lend as int,
                        ));
                        lemma_segs_view_push(segs@, Segment::Text { data });
                    }
                    segs.push(Segment::Text { data });
                    proof {
                        assert(segs_view(segs@) =~= segs_view(segs0) + emitted);
                        assert(segs_view(segs0) + (emitted + scan_from(text@, dv, lend as int))
                            =~= (segs_view(segs0) + emitted) + scan_from(text@, dv, lend as int));
                    }
                    cur = lend;
                } else {
                    let ghost pre: Seq<SegView> = if cur < p {
                        seq![SegView::Text { data: text@.subrange(cur as int, p as int) }]
                    } else {
                        Seq::empty()
                    };
                    if cur < p {
                        let data = text.substring_char(cur, p).to_owned();
                        proof {
                            lemma_segs_view_push(segs@, Segment::Text { data });
                        }
                        segs.push(Segment::Text { data });
                    }
                    proof {
                        assert(segs_view(segs@) =~= segs_view(segs0) + pre);
                    }
                    let ghost segs1 = segs@;
                    match find_right_from(text, n, delims[idx].right.as_str(), lend) {
                        None => {
                            let marker = text.substring_char(p, n).to_owned();
                            proof {
                                lemma_segs_view_push(segs@, Segment::Unclosed { marker });
                            }
                            segs.push(Segment::Unclosed { marker });
                            proof {
                                assert(scan_from(text@, dv, cur as int) == pre + seq![
                                    SegView::Unclosed {
                                        marker: text@.subrange(p as int, n as int),
                                    },
                                ]);
                                assert(segs_view(segs@) =~= segs_view(segs0) + scan_from(
                                    text@,
                                    dv,
                                    cur as int,
                                ));
                                assert(scan_from(text@, dv, 0) == segs_view(segs@) + scan_from(
                                    text@,
                                    dv,
                                    n as int,
                                )) by {
                                    assert(scan_from(text@, dv, n as int) =~= Seq::<
                                        SegView,
                                    >::empty());
                                    assert(segs_view(segs@) + Seq::<SegView>::empty() =~= segs_view(
                                        segs@,
                                    ));
                                }
                            }
                            return segs;
                        },
                        Some(rp) => {
                            proof {
                                lemma_find_right_some(text@, dv[idx as int].right, lend as int, 0);
                            }
                            let rlen = delims[idx].right.unicode_len();
                            proof {
                                assert(rp + rlen <= n);
                            }
                            let rend = rp + rlen;
                            let raw = text.substring_char(p, rend).to_owned();
                            let content = if match_at(text, n, "\\begin{", lend) {
                                raw.clone()
                            } else {
                                text.substring_char(lend, rp).to_owned()
                            };
                            let display = delims[idx].display;
                            let ghost emitted = seq![
                                SegView::Math {
                                    content: content@,
                                    raw: text@.subrange(p as int, rend as int),
                                    display: display,
                                },
                            ];
                            proof {
                                assert(scan_from(text@, dv, cur as int) == (pre + emitted)
                                    + scan_from(text@, dv, rend as int));
                                lemma_segs_view_push(segs@, Segment::Math { content, raw, display });
                            }
                            segs.push(Segment::Math { content, raw, display });
                            proof {
                                assert(segs_view(segs@) =~= segs_view(segs1) + emitted);
                                assert(segs_view(segs@) =~= segs_view(segs0) + (pre + emitted));
                                assert(segs_view(segs0) + ((pre + emitted) + scan_from(
                                    text@,
                                    dv,
                                    rend as int,
                                )) =~= (segs_view(segs0) + (pre + emitted)) + scan_from(
                                    text@,
                                    dv,
                                    rend as int,
                                ));
                            }
                            cur = rend;
                        },
                    }
                }
            },
        }
    }
}

fn find_right_from(text: &str, n: usize, right: &str, start: usize) -> (r: Option<usize>)
    requires
        n == text@.len(),
        start <= n,
    ensures
        match r {
            Some(j) => find_right(text@, right@, start as int, 0) == Some(j as int) && start <= j
                < n,
            None => find_right(text@, right@, start as int, 0) is None,
        },
{
    let mut j: usize = start;
    let mut depth: i128 = 0;
    loop
        invariant
            n == text@.len(),
            start <= j <= n,
            -(j as int) <= depth as int <= j as int,
            find_right(text@, right@, start as int, 0) == find_right(
                text@,
                right@,
                j as int,
                depth as int,
            ),
        decreases n - j,
    {
        if j >= n {
            return None;
        }
        if depth <= 0 && match_at(text, n, right, j) {
            return Some(j);
        }
        let c = text.get_char(j);
        if c == '\\' {
            if j < n - 1 {
                j = j + 2;
            } else {
                return None;
            }
        } else if c == '{' {
            depth = depth + 1;
            j = j + 1;
        } else if c == '}' {
            depth = depth - 1;
            j = j + 1;
        } else {
            j = j + 1;
        }
    }
}

} // verus!
