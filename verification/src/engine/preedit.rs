//! The text that is being composed, as shown at the caret before it is committed.
use crate::text;
use vstd::prelude::*;

verus! {

/// How a part of the preedit is shown.
#[derive(Debug, Clone, Copy, PartialEq, Eq, Structural)]
pub enum AttributeType {
    Underline,
    Highlight,
}

/// A part of the preedit.
#[derive(Debug)]
pub struct PreeditSegment {
    pub text: String,
    pub attribute: AttributeType,
}

#[verifier::ext_equal]
pub struct PreeditSegmentView {
    pub text: Seq<char>,
    pub attribute: AttributeType,
}

impl View for PreeditSegment {
    type V = PreeditSegmentView;

    open spec fn view(&self) -> PreeditSegmentView {
        PreeditSegmentView { text: self.text@, attribute: self.attribute }
    }
}

impl Clone for PreeditSegment {
    fn clone(&self) -> (r: Self)
        ensures
            r == *self,
    {
        PreeditSegment { text: self.text.clone(), attribute: self.attribute }
    }
}

pub open spec fn part_views(v: Seq<PreeditSegment>) -> Seq<PreeditSegmentView> {
    v.map_values(|p: PreeditSegment| p@)
}

impl PreeditSegment {
    pub fn new(text: &str, attribute: AttributeType) -> (r: Self)
        ensures
            r@ == (PreeditSegmentView { text: text@, attribute }),
    {
        PreeditSegment { text: text.to_owned(), attribute }
    }

    pub fn highlighted(text: &str) -> (r: Self)
        ensures
            r@ == (PreeditSegmentView { text: text@, attribute: AttributeType::Highlight }),
    {
        PreeditSegment { text: text.to_owned(), attribute: AttributeType::Highlight }
    }
}

/// The preedit: its parts, and the place of the caret, counted in characters.
#[derive(Debug)]
pub struct Preedit {
    pub segments: Vec<PreeditSegment>,
    pub caret: usize,
}

#[verifier::ext_equal]
pub struct PreeditView {
    pub segments: Seq<PreeditSegmentView>,
    pub caret: int,
}

/// The texts of the parts, one behind the other.
pub open spec fn joined(parts: Seq<PreeditSegmentView>) -> Seq<char>
    decreases parts.len(),
{
    if parts.len() == 0 {
        Seq::empty()
    } else {
        joined(parts.drop_last()) + parts.last().text
    }
}

impl PreeditView {
    /// Nothing is being composed.
    pub open spec fn empty() -> PreeditView {
        PreeditView { segments: Seq::empty(), caret: 0 }
    }

    /// A single underlined text.
    pub open spec fn underlined(text: Seq<char>, caret: int) -> PreeditView {
        PreeditView {
            segments: seq![PreeditSegmentView { text, attribute: AttributeType::Underline }],
            caret,
        }
    }

    /// A single highlighted text, with the caret at its end.
    pub open spec fn highlighted(text: Seq<char>) -> PreeditView {
        PreeditView {
            segments: seq![PreeditSegmentView { text, attribute: AttributeType::Highlight }],
            caret: text.len() as int,
        }
    }

    /// The text of the preedit.
    pub open spec fn text(self) -> Seq<char> {
        joined(self.segments)
    }
}

impl View for Preedit {
    type V = PreeditView;

    open spec fn view(&self) -> PreeditView {
        PreeditView { segments: part_views(self.segments@), caret: self.caret as int }
    }
}

impl Clone for Preedit {
    fn clone(&self) -> (r: Self)
        ensures
            r@ == self@,
    {
        let mut segments: Vec<PreeditSegment> = Vec::new();
        let mut i: usize = 0;
        while i < self.segments.len()
            invariant
                i <= self.segments.len(),
                segments@ == self.segments@.take(i as int),
            decreases self.segments.len() - i,
        {
            segments.push(self.segments[i].clone());
            i += 1;
        }
        assert(segments@ =~= self.segments@);
        Preedit { segments, caret: self.caret }
    }
}

impl Preedit {
    pub fn new() -> (r: Self)
        ensures
            r@ == PreeditView::empty(),
    {
        let r = Preedit { segments: Vec::new(), caret: 0 };
        assert(r@ =~= PreeditView::empty());
        r
    }

    pub fn from_segments(segments: Vec<PreeditSegment>, caret: usize) -> (r: Self)
        ensures
            r@ == (PreeditView { segments: part_views(segments@), caret: caret as int }),
    {
        Preedit { segments, caret }
    }

    /// An underlined text with the caret at `caret`.
    pub fn underlined_at(text: &str, caret: usize) -> (r: Self)
        ensures
            r@ == PreeditView::underlined(text@, caret as int),
    {
        let r = Preedit {
            segments: vec![PreeditSegment::new(text, AttributeType::Underline)],
            caret,
        };
        assert(r@ =~= PreeditView::underlined(text@, caret as int));
        r
    }

    /// An underlined text with the caret at its end.
    pub fn with_text_underlined(text: &str) -> (r: Self)
        ensures
            r@ == PreeditView::underlined(text@, text@.len() as int),
    {
        Preedit::underlined_at(text, text::char_count(text))
    }

    /// A highlighted text with the caret at its end.
    pub fn with_text_highlighted(text: &str) -> (r: Self)
        ensures
            r@ == PreeditView::highlighted(text@),
    {
        let r = Preedit::from_segments(
            vec![PreeditSegment::highlighted(text)],
            text::char_count(text),
        );
        assert(r@ =~= PreeditView::highlighted(text@));
        r
    }

    /// The text of the preedit.
    pub fn text(&self) -> (r: String)
        ensures
            r@ == self@.text(),
    {
        let ghost parts = self@.segments;
        let mut r = String::new();
        let mut i: usize = 0;
        assert(parts.take(0) =~= Seq::empty());
        while i < self.segments.len()
            invariant
                i <= self.segments.len(),
                parts == self@.segments,
                r@ == joined(parts.take(i as int)),
            decreases self.segments.len() - i,
        {
            assert(parts.take(i + 1).drop_last() =~= parts.take(i as int));
            r.append(self.segments[i].text.as_str());
            i += 1;
        }
        assert(parts.take(i as int) =~= parts);
        r
    }
}

} // verus!
