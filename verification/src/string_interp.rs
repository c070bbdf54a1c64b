use vstd::prelude::*;

use crate::text::{is_empty_str, is_whitespace, push_char, spec_is_whitespace, string_from_chars, string_of, to_chars};

verus! {

/// A piece of a string literal: plain text, or the source of an interpolated
/// expression written as `\(expr)`.
#[derive(Debug)]
pub enum Segment {
    Text(String),
    Expression(String),
}

/// A segment as plain values.
pub enum SegmentView {
    Text(Seq<char>),
    Expression(Seq<char>),
}

impl View for Segment {
    type V = SegmentView;

    open spec fn view(&self) -> SegmentView {
        match self {
            Segment::Text(s) => SegmentView::Text(s@),
            Segment::Expression(s) => SegmentView::Expression(s@),
        }
    }
}

pub open spec fn segments_view(segs: Seq<Segment>) -> Seq<SegmentView> {
    segs.map_values(|s: Segment| s@)
}

/// Position of the `)` that closes an interpolation whose contents start at `i`,
/// with `nesting` parentheses open inside it; the length of `cs` when there is none.
pub open spec fn close_paren(cs: Seq<char>, i: int, nesting: nat) -> int
    decreases cs.len() - i,
{
    if i < 0 || i >= cs.len() {
        cs.len() as int
    } else if cs[i] == '(' {
        close_paren(cs, i + 1, nesting + 1)
    } else if cs[i] == ')' {
        if nesting == 0 {
            i
        } else {
            close_paren(cs, i + 1, (nesting - 1) as nat)
        }
    } else {
        close_paren(cs, i + 1, nesting)
    }
}

pub proof fn lemma_close_paren(cs: Seq<char>, i: int, nesting: nat)
    requires
        0 <= i <= cs.len(),
    ensures
        i <= close_paren(cs, i, nesting) <= cs.len(),
        close_paren(cs, i, nesting) < cs.len() ==> cs[close_paren(cs, i, nesting)] == ')',
    decreases cs.len() - i,
{
    if i < cs.len() {
        if cs[i] == '(' {
            lemma_close_paren(cs, i + 1, nesting + 1);
        } else if cs[i] == ')' {
            if nesting != 0 {
                lemma_close_paren(cs, i + 1, (nesting - 1) as nat);
            }
        } else {
            lemma_close_paren(cs, i + 1, nesting);
        }
    }
}

/// Whether `s` holds only whitespace, so that trimming it leaves nothing.
pub open spec fn is_blank(s: Seq<char>) -> bool {
    forall|k: int| 0 <= k < s.len() ==> spec_is_whitespace(#[trigger] s[k])
}

pub open spec fn text_segment(text: Seq<char>) -> Seq<SegmentView> {
    if text.len() > 0 {
        seq![SegmentView::Text(text)]
    } else {
        Seq::empty()
    }
}

/// Splits `cs` from `i` on, where `text` is the plain text read since the last
/// segment.
pub open spec fn scan_segments(cs: Seq<char>, i: int, text: Seq<char>) -> Result<
    Seq<SegmentView>,
    Seq<char>,
>
    decreases cs.len() - i,
{
    if i < 0 || i >= cs.len() {
        Ok(text_segment(text))
    } else if cs[i] == '\\' && i + 1 < cs.len() && cs[i + 1] == '(' {
        let start = i + 2;
        if start >= cs.len() {
            Err("Unclosed interpolation: expected ')'"@)
        } else {
            let e = close_paren(cs, start, 0);
            if e >= cs.len() {
                Err("Unclosed interpolation: expected ')'"@)
            } else {
                let code = cs.subrange(start, e);
                if is_blank(code) {
                    Err("Interpolation expression cannot be empty"@)
                } else {
                    proof {
                        lemma_close_paren(cs, start, 0);
                    }
                    match scan_segments(cs, e + 1, Seq::empty()) {
                        Ok(rest) => Ok(text_segment(text) + seq![SegmentView::Expression(code)]
                            + rest),
                        Err(m) => Err(m),
                    }
                }
            }
        }
    } else {
        scan_segments(cs, i + 1, text.push(cs[i]))
    }
}

/// The segments of a string literal's value, or the message of why it is malformed.
pub open spec fn segments_spec(cs: Seq<char>) -> Result<Seq<SegmentView>, Seq<char>> {
    match scan_segments(cs, 0, Seq::empty()) {
        Ok(segs) => Ok(
            if segs.len() == 0 {
                seq![SegmentView::Text(Seq::empty())]
            } else {
                segs
            },
        ),
        Err(m) => Err(m),
    }
}

/// The parentheses of `code` are balanced: scanning it with none open reaches
/// its end without closing one that was not opened.
pub open spec fn balanced(code: Seq<char>) -> bool {
    close_paren(code, 0, 0) == code.len()
}

/// Segments as a string literal splits into: no two texts next to each other, and
/// every interpolated expression is not blank and has balanced parentheses.
pub open spec fn segments_well_formed(segs: Seq<SegmentView>) -> bool {
    &&& forall|k: int| 0 <= k < segs.len() - 1 ==> !((#[trigger] segs[k]) is Text && segs[k + 1] is Text)
    &&& forall|k: int|
        0 <= k < segs.len() ==> ((#[trigger] segs[k]) matches SegmentView::Expression(code) ==> !is_blank(code)
            && balanced(code))
}

/// Scanning a piece of `cs` that ends where the scan from `i` closes gives the same
/// closing position, counted from the piece's start.
proof fn lemma_close_paren_piece(cs: Seq<char>, start: int, i: int, nesting: nat)
    requires
        0 <= start <= i <= close_paren(cs, i, nesting) < cs.len(),
    ensures
        close_paren(cs.subrange(start, close_paren(cs, i, nesting)), i - start, nesting)
            == close_paren(cs, i, nesting) - start,
    decreases cs.len() - i,
{
    let e = close_paren(cs, i, nesting);
    let piece = cs.subrange(start, e);
    if i < e {
        assert(piece[i - start] == cs[i]);
        if cs[i] == '(' {
            lemma_close_paren_piece(cs, start, i + 1, nesting + 1);
        } else if cs[i] == ')' {
            lemma_close_paren_piece(cs, start, i + 1, (nesting - 1) as nat);
        } else {
            lemma_close_paren_piece(cs, start, i + 1, nesting);
        }
    }
}

proof fn lemma_join_well_formed(text: Seq<char>, code: Seq<char>, rest: Seq<SegmentView>)
    requires
        !is_blank(code),
        balanced(code),
        segments_well_formed(rest),
    ensures
        segments_well_formed(text_segment(text) + seq![SegmentView::Expression(code)] + rest),
{
    let a = text_segment(text);
    let b = seq![SegmentView::Expression(code)];
    let all = a + b + rest;
    assert(a.len() <= 1);
    assert(all[a.len() as int] == SegmentView::Expression(code));
    assert forall|k: int| 0 <= k < all.len() - 1 implies !((#[trigger] all[k]) is Text && all[k + 1] is Text) by {
        if k < a.len() {
            assert(k + 1 == a.len());
        } else if k > a.len() {
            assert(all[k] == rest[k - a.len() - 1]);
            assert(all[k + 1] == rest[k - a.len()]);
        }
    }
    assert forall|k: int| 0 <= k < all.len() implies ((#[trigger] all[k]) matches SegmentView::Expression(c2) ==> !is_blank(c2)
        && balanced(c2)) by {
        if k < a.len() {
            assert(all[k] == a[k]);
        } else if k > a.len() {
            assert(all[k] == rest[k - a.len() - 1]);
        }
    }
}

proof fn lemma_scan_segments_well_formed(cs: Seq<char>, i: int, text: Seq<char>)
    ensures
        scan_segments(cs, i, text) matches Ok(segs) ==> segments_well_formed(segs),
    decreases cs.len() - i,
{
    if i < 0 || i >= cs.len() {
    } else if cs[i] == '\\' && i + 1 < cs.len() && cs[i + 1] == '(' {
        let start = i + 2;
        if start < cs.len() {
            let e = close_paren(cs, start, 0);
            if e < cs.len() {
                let code = cs.subrange(start, e);
                if !is_blank(code) {
                    lemma_close_paren(cs, start, 0);
                    lemma_scan_segments_well_formed(cs, e + 1, Seq::empty());
                    if let Ok(rest) = scan_segments(cs, e + 1, Seq::empty()) {
                        lemma_close_paren_piece(cs, start, start, 0);
                        assert(balanced(code));
                        lemma_join_well_formed(text, code, rest);
                    }
                }
            }
        }
    } else {
        lemma_scan_segments_well_formed(cs, i + 1, text.push(cs[i]));
    }
}

/// The segments of a string literal are well formed: texts alternate with
/// interpolated expressions, and every expression is not blank and has balanced
/// parentheses.
pub proof fn lemma_segments_well_formed(cs: Seq<char>)
    ensures
        segments_spec(cs) matches Ok(segs) ==> segments_well_formed(segs),
{
    lemma_scan_segments_well_formed(cs, 0, Seq::empty());
}

/// Splits a string literal's value into text and interpolated expressions.
pub fn parse_segments(input: &str) -> (r: Result<Vec<Segment>, String>)
    ensures
        match r {
            Ok(segs) => segments_spec(input@) == Ok::<Seq<SegmentView>, Seq<char>>(
                segments_view(segs@),
            ),
            Err(m) => segments_spec(input@) == Err::<Seq<SegmentView>, Seq<char>>(m@),
        },
{
    let chars = to_chars(input);
    let ghost cs = chars@;
    let mut i: usize = 0;
    let mut text = String::new();
    let mut segments: Vec<Segment> = Vec::new();
    let ghost whole = scan_segments(cs, 0, Seq::empty());

    while i < chars.len()
        invariant
            cs == chars@,
            cs == input@,
            whole == scan_segments(cs, 0, Seq::empty()),
            i <= cs.len(),
            whole == match scan_segments(cs, i as int, text@) {
                Ok(rest) => Ok::<Seq<SegmentView>, Seq<char>>(segments_view(segments@) + rest),
                Err(m) => Err(m),
            },
        decreases cs.len() - i,
    {
        if chars[i] == '\\' && i + 1 < chars.len() && chars[i + 1] == '(' {
            let ghost at = i as int;
            let ghost text_before = text@;
            let ghost segs_before = segments_view(segments@);
            if !is_empty_str(text.as_str()) {
                let t = text;
                text = String::new();
                segments.push(Segment::Text(t));
            }
            proof {
                assert(segments_view(segments@) == segs_before + text_segment(text_before));
            }
            i += 2;

            if i >= chars.len() {
                assert(scan_segments(cs, at, text_before) == Err::<Seq<SegmentView>, Seq<char>>(
                    "Unclosed interpolation: expected ')'"@));
                assert(whole == Err::<Seq<SegmentView>, Seq<char>>(
                    "Unclosed interpolation: expected ')'"@));
                return Err(string_of("Unclosed interpolation: expected ')'"));
            }

            let start = i;
            let mut nesting: usize = 0;
            proof {
                lemma_close_paren(cs, start as int, 0);
            }
            while i < chars.len()
                invariant_except_break
                    close_paren(cs, start as int, 0) == close_paren(cs, i as int, nesting as nat),
                invariant
                    cs == chars@,
                    start <= i <= cs.len(),
                    nesting <= i - start,
                ensures
                    i == close_paren(cs, start as int, 0),
                decreases cs.len() - i,
            {
                if chars[i] == '(' {
                    nesting += 1;
                    i += 1;
                } else if chars[i] == ')' {
                    if nesting == 0 {
                        break;
                    }
                    nesting -= 1;
                    i += 1;
                } else {
                    i += 1;
                }
            }

            if i >= chars.len() || chars[i] != ')' {
                return Err(string_of("Unclosed interpolation: expected ')'"));
            }

            let expr = string_from_chars(chars.as_slice(), start, i);
            if is_blank_chars(chars.as_slice(), start, i) {
                return Err(string_of("Interpolation expression cannot be empty"));
            }
            proof {
                lemma_close_paren(cs, start as int, 0);
            }
            let ghost code = expr@;
            let ghost before = segments_view(segments@);
            segments.push(Segment::Expression(expr));
            proof {
                assert(scan_segments(cs, at, text_before) == match scan_segments(
                    cs,
                    i + 1,
                    Seq::empty(),
                ) {
                    Ok(rest) => Ok(text_segment(text_before) + seq![SegmentView::Expression(code)]
                        + rest),
                    Err(m) => Err::<Seq<SegmentView>, Seq<char>>(m),
                });
                assert(segments_view(segments@) == before.push(SegmentView::Expression(code)));
                assert(text_segment(Seq::<char>::empty()) == Seq::<SegmentView>::empty());
                match scan_segments(cs, i + 1, Seq::empty()) {
                    Ok(rest) => {
                        assert(segs_before + (text_segment(text_before) + seq![
                            SegmentView::Expression(code),
                        ] + rest) == before.push(SegmentView::Expression(code)) + rest);
                    },
                    Err(m) => {},
                }
            }
            i += 1;
            assert(text@ =~= Seq::<char>::empty());
            continue;
        }

        push_char(&mut text, chars[i]);
        i += 1;
    }

    proof {
        assert(whole == Ok::<Seq<SegmentView>, Seq<char>>(
            segments_view(segments@) + text_segment(text@),
        ));
    }
    let ghost sv0 = segments_view(segments@);
    if !is_empty_str(text.as_str()) || segments.len() == 0 {
        let ghost before = segments_view(segments@);
        let ghost t = text@;
        segments.push(Segment::Text(text));
        proof {
            assert(segments_view(segments@) == before.push(SegmentView::Text(t)));
            if t.len() > 0 {
                assert(segments_view(segments@) == sv0 + text_segment(t));
            } else {
                assert(sv0.len() == 0);
                assert(t =~= Seq::<char>::empty());
                assert(before.push(SegmentView::Text(t)) =~= seq![SegmentView::Text(Seq::<char>::empty())]);
                assert(sv0 + text_segment(t) =~= Seq::<SegmentView>::empty());
            }
        }
    }
    proof {
        let sv = segments_view(segments@);
        assert(sv.len() == segments@.len());
        if sv0.len() > 0 {
            assert(sv0 + text_segment(Seq::<char>::empty()) == sv0);
        }
    }
    Ok(segments)
}

fn is_blank_chars(cs: &[char], from: usize, to: usize) -> (b: bool)
    requires
        from <= to <= cs@.len(),
    ensures
        b == is_blank(cs@.subrange(from as int, to as int)),
{
    let mut i = from;
    while i < to
        invariant
            from <= i <= to <= cs@.len(),
            forall|k: int| from <= k < i ==> spec_is_whitespace(#[trigger] cs@[k]),
        decreases to - i,
    {
        if !is_whitespace(cs[i]) {
            assert(!spec_is_whitespace(cs@.subrange(from as int, to as int)[i - from]));
            return false;
        }
        i += 1;
    }
    assert forall|k: int| 0 <= k < to - from implies spec_is_whitespace(
        #[trigger] cs@.subrange(from as int, to as int)[k],
    ) by {
        assert(cs@.subrange(from as int, to as int)[k] == cs@[from + k]);
    }
    true
}

/// Writes a segment back in the form it has inside a string literal.
pub open spec fn render_segment(s: SegmentView) -> Seq<char> {
    match s {
        SegmentView::Text(t) => t,
        SegmentView::Expression(c) => seq!['\\', '('] + c + seq![')'],
    }
}

pub open spec fn render(segs: Seq<SegmentView>) -> Seq<char>
    decreases segs.len(),
{
    if segs.len() == 0 {
        Seq::empty()
    } else {
        render_segment(segs[0]) + render(segs.drop_first())
    }
}

proof fn lemma_render_append(a: Seq<SegmentView>, b: Seq<SegmentView>)
    ensures
        render(a + b) == render(a) + render(b),
    decreases a.len(),
{
    if a.len() == 0 {
        assert(a + b =~= b);
    } else {
        lemma_render_append(a.drop_first(), b);
        assert((a + b).drop_first() =~= a.drop_first() + b);
        assert(render(a + b) == render_segment(a[0]) + render((a + b).drop_first()));
    }
}

proof fn lemma_scan_renders(cs: Seq<char>, i: int, text: Seq<char>)
    requires
        0 <= i <= cs.len(),
        scan_segments(cs, i, text) is Ok,
    ensures
        render(scan_segments(cs, i, text)->Ok_0) == text + cs.subrange(i, cs.len() as int),
    decreases cs.len() - i,
{
    if i >= cs.len() {
        assert(cs.subrange(i, cs.len() as int) =~= Seq::<char>::empty());
        if text.len() > 0 {
            assert(render(seq![SegmentView::Text(text)]) == text + render(
                seq![SegmentView::Text(text)].drop_first(),
            ));
            assert(seq![SegmentView::Text(text)].drop_first() =~= Seq::<SegmentView>::empty());
        }
        assert(text + Seq::<char>::empty() =~= text);
    } else if cs[i] == '\\' && i + 1 < cs.len() && cs[i + 1] == '(' {
        let start = i + 2;
        let e = close_paren(cs, start, 0);
        lemma_close_paren(cs, start, 0);
        let code = cs.subrange(start, e);
        lemma_scan_renders(cs, e + 1, Seq::empty());
        let rest = scan_segments(cs, e + 1, Seq::empty())->Ok_0;
        let ts = text_segment(text);
        let ex = seq![SegmentView::Expression(code)];
        lemma_render_append(ts + ex, rest);
        lemma_render_append(ts, ex);
        assert(render(ex) == render_segment(SegmentView::Expression(code)) + render(
            ex.drop_first(),
        ));
        assert(ex.drop_first() =~= Seq::<SegmentView>::empty());
        if text.len() > 0 {
            assert(render(ts) == text + render(ts.drop_first()));
            assert(ts.drop_first() =~= Seq::<SegmentView>::empty());
        } else {
            assert(text =~= Seq::<char>::empty());
        }
        assert(cs.subrange(i, cs.len() as int) =~= seq!['\\', '('] + code + seq![')']
            + cs.subrange(e + 1, cs.len() as int));
        assert(Seq::<char>::empty() + cs.subrange(e + 1, cs.len() as int) =~= cs.subrange(
            e + 1,
            cs.len() as int,
        ));
        assert(render(ts + ex + rest) =~= text + cs.subrange(i, cs.len() as int));
    } else {
        lemma_scan_renders(cs, i + 1, text.push(cs[i]));
        assert(text.push(cs[i]) + cs.subrange(i + 1, cs.len() as int) =~= text + cs.subrange(
            i,
            cs.len() as int,
        ));
    }
}

/// Putting the segments of a well-formed string literal back together gives the
/// literal's value again.
pub proof fn lemma_segments_render(cs: Seq<char>)
    requires
        segments_spec(cs) is Ok,
    ensures
        render(segments_spec(cs)->Ok_0) == cs,
{
    lemma_scan_renders(cs, 0, Seq::empty());
    assert(cs.subrange(0, cs.len() as int) =~= cs);
    assert(Seq::<char>::empty() + cs =~= cs);
    let segs = scan_segments(cs, 0, Seq::empty())->Ok_0;
    if segs.len() == 0 {
        let one = seq![SegmentView::Text(Seq::<char>::empty())];
        assert(render(one) == Seq::<char>::empty() + render(one.drop_first()));
        assert(one.drop_first() =~= Seq::<SegmentView>::empty());
        assert(render(Seq::<SegmentView>::empty()) =~= Seq::<char>::empty());
    }
}

proof fn lemma_render_part(segs: Seq<SegmentView>, k: int)
    requires
        0 <= k < segs.len(),
    ensures
        render_segment(segs[k]).len() <= render(segs).len(),
    decreases segs.len(),
{
    if k > 0 {
        lemma_render_part(segs.drop_first(), k - 1);
    }
}

/// Every interpolated expression of a well-formed string literal is shorter than
/// the literal.
pub proof fn lemma_segment_code_shorter(cs: Seq<char>, k: int)
    requires
        segments_spec(cs) is Ok,
        0 <= k < segments_spec(cs)->Ok_0.len(),
        segments_spec(cs)->Ok_0[k] is Expression,
    ensures
        segments_spec(cs)->Ok_0[k]->Expression_0.len() < cs.len(),
{
    lemma_segments_render(cs);
    lemma_render_part(segments_spec(cs)->Ok_0, k);
}

} // verus!
