//! Conversion candidates: where they come from, how they are collected without
//! repetition, and the list that the user walks through.
use crate::distinct;
use crate::distinct::Keyed;
use crate::text;
use crate::text::{is_pure_full_katakana, is_pure_half_katakana, is_pure_hiragana};
use vstd::prelude::*;

verus! {

/// Where a candidate comes from.
#[derive(Debug, Clone, Copy, PartialEq, Eq, Structural)]
pub enum CandidateSource {
    /// What the user chose before.
    Learning,
    /// The user's own dictionary.
    UserDictionary,
    /// The conversion model.
    Model,
    /// The system dictionary.
    Dictionary,
    /// A rule-based variant of the input.
    Rewriter,
    /// The input itself, as kana.
    Fallback,
}

/// The label shown for a source; empty for the input itself.
pub open spec fn label_of(source: CandidateSource) -> Seq<char> {
    match source {
        CandidateSource::Learning => "📝 学習"@,
        CandidateSource::UserDictionary => "👤 ユーザー辞書"@,
        CandidateSource::Model => "🤖 AI"@,
        CandidateSource::Dictionary => "📚 辞書"@,
        CandidateSource::Rewriter => "🔄 変換"@,
        CandidateSource::Fallback => ""@,
    }
}

impl CandidateSource {
    /// The label shown for this source.
    pub fn label(&self) -> (r: &'static str)
        ensures
            r@ == label_of(*self),
    {
        match self {
            CandidateSource::Learning => "📝 学習",
            CandidateSource::UserDictionary => "👤 ユーザー辞書",
            CandidateSource::Model => "🤖 AI",
            CandidateSource::Dictionary => "📚 辞書",
            CandidateSource::Rewriter => "🔄 変換",
            CandidateSource::Fallback => "",
        }
    }
}

/// The text in an option.
pub open spec fn optional(o: Option<String>) -> Option<Seq<char>> {
    match o {
        Some(s) => Some(s@),
        None => None,
    }
}

pub fn copy_optional(o: &Option<String>) -> (r: Option<String>)
    ensures
        r == *o,
{
    match o {
        Some(s) => Some(s.clone()),
        None => None,
    }
}

/// A candidate while the list is being built.
#[derive(Debug)]
pub struct AnnotatedCandidate {
    pub text: String,
    pub source: CandidateSource,
    /// The reading that the candidate converts, where it is not the one typed.
    pub reading: Option<String>,
    /// A note on the candidate, such as the name of a symbol.
    pub description: Option<String>,
}

#[verifier::ext_equal]
pub struct AnnotatedView {
    pub text: Seq<char>,
    pub source: CandidateSource,
    pub reading: Option<Seq<char>>,
    pub description: Option<Seq<char>>,
}

impl Keyed for AnnotatedView {
    open spec fn key(self) -> Seq<char> {
        self.text
    }
}

impl AnnotatedView {
    /// A candidate with nothing but its text and source.
    pub open spec fn plain(text: Seq<char>, source: CandidateSource) -> AnnotatedView {
        AnnotatedView { text, source, reading: None, description: None }
    }

    /// A candidate for a reading of its own.
    pub open spec fn reads(text: Seq<char>, source: CandidateSource, reading: Seq<char>) -> AnnotatedView {
        AnnotatedView { text, source, reading: Some(reading), description: None }
    }
}

impl View for AnnotatedCandidate {
    type V = AnnotatedView;

    open spec fn view(&self) -> AnnotatedView {
        AnnotatedView {
            text: self.text@,
            source: self.source,
            reading: optional(self.reading),
            description: optional(self.description),
        }
    }
}

impl Clone for AnnotatedCandidate {
    fn clone(&self) -> (r: Self)
        ensures
            r == *self,
    {
        AnnotatedCandidate {
            text: self.text.clone(),
            source: self.source,
            reading: copy_optional(&self.reading),
            description: copy_optional(&self.description),
        }
    }
}

pub open spec fn annotated_views(v: Seq<AnnotatedCandidate>) -> Seq<AnnotatedView> {
    v.map_values(|c: AnnotatedCandidate| c@)
}

impl AnnotatedCandidate {
    pub fn new(text: String, source: CandidateSource) -> (r: Self)
        ensures
            r@ == AnnotatedView::plain(text@, source),
    {
        AnnotatedCandidate { text, source, reading: None, description: None }
    }

    pub fn with_reading(self, reading: Option<String>) -> (r: Self)
        ensures
            r@ == (AnnotatedView { reading: optional(reading), ..self@ }),
    {
        AnnotatedCandidate {
            text: self.text,
            source: self.source,
            reading,
            description: self.description,
        }
    }

    pub fn with_description(self, description: Option<String>) -> (r: Self)
        ensures
            r@ == (AnnotatedView { description: optional(description), ..self@ }),
    {
        AnnotatedCandidate {
            text: self.text,
            source: self.source,
            reading: self.reading,
            description,
        }
    }
}

/// A candidate as the user sees it.
#[derive(Debug)]
pub struct Candidate {
    pub text: String,
    pub reading: Option<String>,
    /// The label of the source, if it has one.
    pub source_label: Option<String>,
    pub description: Option<String>,
}

#[verifier::ext_equal]
pub struct CandidateView {
    pub text: Seq<char>,
    pub reading: Option<Seq<char>>,
    pub source_label: Option<Seq<char>>,
    pub description: Option<Seq<char>>,
}

impl Keyed for CandidateView {
    open spec fn key(self) -> Seq<char> {
        self.text
    }
}

impl View for Candidate {
    type V = CandidateView;

    open spec fn view(&self) -> CandidateView {
        CandidateView {
            text: self.text@,
            reading: optional(self.reading),
            source_label: optional(self.source_label),
            description: optional(self.description),
        }
    }
}

impl Clone for Candidate {
    fn clone(&self) -> (r: Self)
        ensures
            r == *self,
    {
        Candidate {
            text: self.text.clone(),
            reading: copy_optional(&self.reading),
            source_label: copy_optional(&self.source_label),
            description: copy_optional(&self.description),
        }
    }
}

pub open spec fn candidate_views(v: Seq<Candidate>) -> Seq<CandidateView> {
    v.map_values(|c: Candidate| c@)
}

/// The label shown for a source, if it has one.
pub open spec fn shown_label(source: CandidateSource) -> Option<Seq<char>> {
    if label_of(source).len() == 0 {
        None
    } else {
        Some(label_of(source))
    }
}

/// How a candidate is shown: with its own reading or else the one typed. The label
/// tells the source and the description stays apart from it.
pub open spec fn shown(c: AnnotatedView, reading: Seq<char>) -> CandidateView {
    CandidateView {
        text: c.text,
        reading: Some(
            match c.reading {
                Some(r) => r,
                None => reading,
            },
        ),
        source_label: shown_label(c.source),
        description: c.description,
    }
}

/// How a list of candidates is shown.
pub open spec fn shown_all(list: Seq<AnnotatedView>, reading: Seq<char>) -> Seq<CandidateView> {
    list.map_values(|c: AnnotatedView| shown(c, reading))
}

fn show(c: &AnnotatedCandidate, reading: &str) -> (r: Candidate)
    ensures
        r@ == shown(c@, reading@),
{
    let cand_reading = match &c.reading {
        Some(own) => own.clone(),
        None => reading.to_owned(),
    };
    let label = c.source.label();
    let source_label = if label.is_empty() {
        None
    } else {
        Some(label.to_owned())
    };
    Candidate {
        text: c.text.clone(),
        reading: Some(cand_reading),
        source_label,
        description: copy_optional(&c.description),
    }
}

/// The list that shows `candidates`, with the first selected.
pub fn show_all(candidates: &Vec<AnnotatedCandidate>, reading: &str) -> (r: CandidateList)
    ensures
        r@ == (ListView {
            candidates: shown_all(annotated_views(candidates@), reading@),
            cursor: 0,
        }),
{
    let ghost all = shown_all(annotated_views(candidates@), reading@);
    let mut out: Vec<Candidate> = Vec::new();
    let mut i: usize = 0;
    assert(candidate_views(out@) =~= all.take(0));
    while i < candidates.len()
        invariant
            i <= candidates.len(),
            all == shown_all(annotated_views(candidates@), reading@),
            candidate_views(out@) == all.take(i as int),
        decreases candidates.len() - i,
    {
        let ghost before = out@;
        let c = show(&candidates[i], reading);
        out.push(c);
        i += 1;
        assert(candidate_views(out@) =~= candidate_views(before).push(c@));
        assert(all.take(i as int) =~= all.take(i - 1).push(all[i - 1]));
    }
    assert(all.take(i as int) =~= all);
    CandidateList::new(out)
}

/// How many candidates a page shows: as many as there are digit keys `1` to `9`.
pub const DEFAULT_PAGE_SIZE: usize = 9;

/// A list of candidates, one of which is selected.
#[derive(Debug)]
pub struct CandidateList {
    candidates: Vec<Candidate>,
    cursor: usize,
}

#[verifier::ext_equal]
pub struct ListView {
    pub candidates: Seq<CandidateView>,
    pub cursor: int,
}

impl ListView {
    /// A candidate is selected, unless there is none.
    pub open spec fn wf(self) -> bool {
        if self.candidates.len() == 0 {
            self.cursor == 0
        } else {
            0 <= self.cursor < self.candidates.len()
        }
    }

    /// The candidate that is selected.
    pub open spec fn selected(self) -> Option<CandidateView> {
        if 0 <= self.cursor < self.candidates.len() {
            Some(self.candidates[self.cursor])
        } else {
            None
        }
    }

    /// The text of the selected candidate, or `reading` if there is none.
    pub open spec fn text_or(self, reading: Seq<char>) -> Seq<char> {
        match self.selected() {
            Some(c) => c.text,
            None => reading,
        }
    }

    /// The reading of the selected candidate, or `reading` if it has none.
    pub open spec fn reading_or(self, reading: Seq<char>) -> Seq<char> {
        match self.selected() {
            Some(c) => match c.reading {
                Some(r) => r,
                None => reading,
            },
            None => reading,
        }
    }

    pub open spec fn at(self, cursor: int) -> ListView {
        ListView { candidates: self.candidates, cursor }
    }

    /// The next candidate; after the last comes the first.
    pub open spec fn next(self) -> ListView {
        if self.candidates.len() == 0 {
            self
        } else if self.cursor + 1 < self.candidates.len() {
            self.at(self.cursor + 1)
        } else {
            self.at(0)
        }
    }

    /// The previous candidate; before the first comes the last.
    pub open spec fn prev(self) -> ListView {
        if self.candidates.len() == 0 {
            self
        } else if self.cursor > 0 {
            self.at(self.cursor - 1)
        } else {
            self.at(self.candidates.len() - 1)
        }
    }

    /// The place of the first candidate on the current page.
    pub open spec fn page_start(self) -> int {
        self.cursor - self.cursor % (DEFAULT_PAGE_SIZE as int)
    }

    /// The first candidate of the next page; no change on the last page.
    pub open spec fn page_down(self) -> ListView {
        if self.page_start() + DEFAULT_PAGE_SIZE < self.candidates.len() {
            self.at(self.page_start() + DEFAULT_PAGE_SIZE)
        } else {
            self
        }
    }

    /// The first candidate of the previous page; no change on the first page.
    pub open spec fn page_up(self) -> ListView {
        if self.page_start() >= DEFAULT_PAGE_SIZE {
            self.at(self.page_start() - DEFAULT_PAGE_SIZE)
        } else {
            self
        }
    }

    /// The current page has a candidate under the number `digit`.
    pub open spec fn on_page(self, digit: int) -> bool {
        1 <= digit <= DEFAULT_PAGE_SIZE && self.page_start() + digit - 1 < self.candidates.len()
    }

    /// The candidate under the number `digit` of the current page.
    pub open spec fn picked(self, digit: int) -> ListView {
        self.at(self.page_start() + digit - 1)
    }
}

impl View for CandidateList {
    type V = ListView;

    closed spec fn view(&self) -> ListView {
        ListView { candidates: candidate_views(self.candidates@), cursor: self.cursor as int }
    }
}

impl Clone for CandidateList {
    fn clone(&self) -> (r: Self)
        ensures
            r@ == self@,
    {
        let mut candidates: Vec<Candidate> = Vec::new();
        let mut i: usize = 0;
        while i < self.candidates.len()
            invariant
                i <= self.candidates.len(),
                candidates@ == self.candidates@.take(i as int),
            decreases self.candidates.len() - i,
        {
            candidates.push(self.candidates[i].clone());
            i += 1;
        }
        assert(candidates@ =~= self.candidates@);
        proof {
            use_type_invariant(self);
        }
        CandidateList { candidates, cursor: self.cursor }
    }
}

impl CandidateList {
    /// A candidate is selected, unless there is none.
    #[verifier::type_invariant]
    spec fn selects_one(self) -> bool {
        self@.wf()
    }

    /// A list with the first candidate selected.
    pub fn new(candidates: Vec<Candidate>) -> (r: Self)
        ensures
            r@ == (ListView { candidates: candidate_views(candidates@), cursor: 0 }),
    {
        CandidateList { candidates, cursor: 0 }
    }

    pub fn len(&self) -> (r: usize)
        ensures
            r == self@.candidates.len(),
    {
        self.candidates.len()
    }

    /// The place of the selected candidate, which is in the list unless that is empty.
    pub fn cursor(&self) -> (r: usize)
        ensures
            r == self@.cursor,
            self@.wf(),
    {
        proof {
            use_type_invariant(self);
        }
        self.cursor
    }

    /// The candidates, in order.
    pub fn candidates(&self) -> (r: &Vec<Candidate>)
        ensures
            candidate_views(r@) == self@.candidates,
    {
        &self.candidates
    }

    /// The selected candidate.
    pub fn selected(&self) -> (r: Option<&Candidate>)
        ensures
            r is Some <==> self@.selected() is Some,
            r is Some ==> r->0@ == self@.selected()->0,
    {
        if self.cursor < self.candidates.len() {
            Some(&self.candidates[self.cursor])
        } else {
            None
        }
    }

    /// The text of the selected candidate.
    pub fn selected_text(&self) -> (r: Option<&str>)
        ensures
            r is Some <==> self@.selected() is Some,
            r is Some ==> r->0@ == self@.selected()->0.text,
    {
        match self.selected() {
            Some(c) => Some(c.text.as_str()),
            None => None,
        }
    }

    /// Selects the next candidate, after the last the first. Reports whether there
    /// is a candidate.
    pub fn move_next(&mut self) -> (r: bool)
        ensures
            final(self)@ == old(self)@.next(),
            r == (old(self)@.candidates.len() > 0),
    {
        proof {
            use_type_invariant(&*self);
        }
        if self.candidates.len() == 0 {
            return false;
        }
        if self.cursor + 1 < self.candidates.len() {
            self.cursor = self.cursor + 1;
        } else {
            self.cursor = 0;
        }
        true
    }

    /// Selects the previous candidate, before the first the last. Reports whether
    /// there is a candidate.
    pub fn move_prev(&mut self) -> (r: bool)
        ensures
            final(self)@ == old(self)@.prev(),
            r == (old(self)@.candidates.len() > 0),
    {
        proof {
            use_type_invariant(&*self);
        }
        if self.candidates.len() == 0 {
            return false;
        }
        if self.cursor > 0 {
            self.cursor = self.cursor - 1;
        } else {
            self.cursor = self.candidates.len() - 1;
        }
        true
    }

    /// Selects the first candidate of the next page, if there is one.
    pub fn next_page(&mut self) -> (r: bool)
        ensures
            final(self)@ == old(self)@.page_down(),
            r == (old(self)@.page_start() + DEFAULT_PAGE_SIZE < old(self)@.candidates.len()),
    {
        proof {
            use_type_invariant(&*self);
        }
        let start = self.cursor - self.cursor % DEFAULT_PAGE_SIZE;
        if self.candidates.len() > DEFAULT_PAGE_SIZE && start < self.candidates.len()
            - DEFAULT_PAGE_SIZE {
            self.cursor = start + DEFAULT_PAGE_SIZE;
            true
        } else {
            false
        }
    }

    /// Selects the first candidate of the previous page, if there is one.
    pub fn prev_page(&mut self) -> (r: bool)
        ensures
            final(self)@ == old(self)@.page_up(),
            r == (old(self)@.page_start() >= DEFAULT_PAGE_SIZE),
    {
        proof {
            use_type_invariant(&*self);
        }
        let start = self.cursor - self.cursor % DEFAULT_PAGE_SIZE;
        if start >= DEFAULT_PAGE_SIZE {
            self.cursor = start - DEFAULT_PAGE_SIZE;
            true
        } else {
            false
        }
    }

    /// Selects the candidate under the number `digit` of the current page, counted
    /// from 1. `None`, with nothing changed, if the page has no such candidate.
    pub fn select_on_page(&mut self, digit: usize) -> (r: Option<Candidate>)
        ensures
            old(self)@.on_page(digit as int) ==> {
                &&& final(self)@ == old(self)@.picked(digit as int)
                &&& r is Some
                &&& Some(r->0@) == final(self)@.selected()
            },
            !old(self)@.on_page(digit as int) ==> final(self)@ == old(self)@ && r is None,
    {
        proof {
            use_type_invariant(&*self);
        }
        let start = self.cursor - self.cursor % DEFAULT_PAGE_SIZE;
        if digit < 1 || digit > DEFAULT_PAGE_SIZE {
            return None;
        }
        if self.candidates.len() <= start || self.candidates.len() - start < digit {
            return None;
        }
        self.cursor = start + (digit - 1);
        Some(self.candidates[self.cursor].clone())
    }
}

/// Going on and back again selects the candidate from before.
pub proof fn law_next_prev(l: ListView)
    requires
        l.wf(),
    ensures
        l.next().prev() == l,
        l.prev().next() == l,
{
}

/// Walking and paging never leave the list.
pub proof fn law_navigation_keeps_wf(l: ListView, digit: int)
    requires
        l.wf(),
    ensures
        l.next().wf(),
        l.prev().wf(),
        l.page_down().wf(),
        l.page_up().wf(),
        l.on_page(digit) ==> l.picked(digit).wf() && l.picked(digit).page_start()
            == l.page_start(),
{
    let p = l.page_start();
    assert(p % 9 == 0);
    if l.on_page(digit) {
        assert((p + digit - 1) % 9 == digit - 1);
    }
}

/// Builds a list of candidates in which no text occurs twice. [`push`] skips a text
/// that is there already; [`push_force`] does not, for candidates that come first
/// and keep their place.
///
/// [`push`]: CandidateBuilder::push
/// [`push_force`]: CandidateBuilder::push_force
pub struct CandidateBuilder {
    candidates: Vec<AnnotatedCandidate>,
}

impl View for CandidateBuilder {
    type V = Seq<AnnotatedView>;

    closed spec fn view(&self) -> Seq<AnnotatedView> {
        annotated_views(self.candidates@)
    }
}

impl CandidateBuilder {
    pub fn new() -> (r: Self)
        ensures
            r@ == Seq::<AnnotatedView>::empty(),
    {
        let r = CandidateBuilder { candidates: Vec::new() };
        assert(r@ =~= Seq::empty());
        r
    }

    /// Whether a candidate with this text is in the list.
    pub fn contains(&self, text: &String) -> (r: bool)
        ensures
            r == distinct::has_key(self@, text@),
    {
        let mut i: usize = 0;
        while i < self.candidates.len()
            invariant
                i <= self.candidates.len(),
                forall|j: int| 0 <= j < i ==> (#[trigger] self@[j]).key() != text@,
            decreases self.candidates.len() - i,
        {
            if self.candidates[i].text == *text {
                assert(self@[i as int].key() == text@);
                return true;
            }
            i += 1;
        }
        assert(self@.len() == self.candidates@.len());
        false
    }

    /// Adds a candidate if its text is new.
    pub fn push(&mut self, ac: AnnotatedCandidate)
        ensures
            final(self)@ == distinct::push_new(old(self)@, ac@),
    {
        if !self.contains(&ac.text) {
            self.push_force(ac);
        }
    }

    /// Adds a candidate in any case; later ones with its text are skipped.
    pub fn push_force(&mut self, ac: AnnotatedCandidate)
        ensures
            final(self)@ == old(self)@.push(ac@),
    {
        let ghost before = self@;
        self.candidates.push(ac);
        assert(self@ =~= before.push(ac@));
    }

    pub fn is_empty(&self) -> (r: bool)
        ensures
            r == (self@.len() == 0),
    {
        self.candidates.len() == 0
    }

    pub fn len(&self) -> (r: usize)
        ensures
            r == self@.len(),
    {
        self.candidates.len()
    }

    /// A builder that goes on with these candidates.
    pub fn from_candidates(candidates: Vec<AnnotatedCandidate>) -> (r: Self)
        ensures
            r@ == annotated_views(candidates@),
    {
        CandidateBuilder { candidates }
    }

    pub fn into_candidates(self) -> (r: Vec<AnnotatedCandidate>)
        ensures
            annotated_views(r@) == self@,
    {
        self.candidates
    }
}

/// The note that tells kana scripts apart: for a text all in hiragana, in full-width
/// katakana or in half-width katakana, none for any other.
pub open spec fn script_note(s: Seq<char>) -> Option<Seq<char>> {
    if text::pure_hiragana(s) {
        Some("[全]ひらがな"@)
    } else if text::pure_full_katakana(s) {
        Some("[全]カタカナ"@)
    } else if text::pure_half_katakana(s) {
        Some("[半]カタカナ"@)
    } else {
        None
    }
}

/// The note on width and script for a pure kana text such as `あ`, `ア` or `ｱ`;
/// `None` if the text mixes scripts or holds anything else.
pub fn width_annotation(text: &str) -> (r: Option<&'static str>)
    ensures
        r is Some <==> script_note(text@) is Some,
        r is Some ==> r->0@ == script_note(text@)->0,
{
    if is_pure_hiragana(text) {
        Some("[全]ひらがな")
    } else if is_pure_full_katakana(text) {
        Some("[全]カタカナ")
    } else if is_pure_half_katakana(text) {
        Some("[半]カタカナ")
    } else {
        None
    }
}

} // verus!
