//! What conversions draw on: dictionaries, the learning cache, the answers of the
//! conversion models, and the tables of variants and symbol names.
use super::candidate;
use super::candidate::copy_optional;
use crate::text;
use crate::text::{has_prefix, same_text};
use vstd::prelude::*;

verus! {

/// A surface form in a dictionary. A lower score is a better one.
#[derive(Debug)]
pub struct DictCandidate {
    pub surface: String,
    pub score: i32,
}

#[verifier::ext_equal]
pub struct DictCandidateView {
    pub surface: Seq<char>,
    pub score: i32,
}

impl View for DictCandidate {
    type V = DictCandidateView;

    open spec fn view(&self) -> DictCandidateView {
        DictCandidateView { surface: self.surface@, score: self.score }
    }
}

impl Clone for DictCandidate {
    fn clone(&self) -> (r: Self)
        ensures
            r == *self,
    {
        DictCandidate { surface: self.surface.clone(), score: self.score }
    }
}

pub open spec fn dict_views(v: Seq<DictCandidate>) -> Seq<DictCandidateView> {
    v.map_values(|c: DictCandidate| c@)
}

/// The surface forms of one reading.
#[derive(Debug, Clone)]
pub struct DictEntry {
    pub reading: String,
    pub candidates: Vec<DictCandidate>,
}

#[verifier::ext_equal]
pub struct DictEntryView {
    pub reading: Seq<char>,
    pub candidates: Seq<DictCandidateView>,
}

impl View for DictEntry {
    type V = DictEntryView;

    open spec fn view(&self) -> DictEntryView {
        DictEntryView { reading: self.reading@, candidates: dict_views(self.candidates@) }
    }
}

/// A dictionary from readings to surface forms.
#[derive(Debug, Clone)]
pub struct Dictionary {
    pub entries: Vec<DictEntry>,
}

impl View for Dictionary {
    type V = Seq<DictEntryView>;

    open spec fn view(&self) -> Seq<DictEntryView> {
        self.entries@.map_values(|e: DictEntry| e@)
    }
}

/// The surface forms of a reading: those of the first entry for it.
pub open spec fn entry_for(entries: Seq<DictEntryView>, reading: Seq<char>) -> Option<
    Seq<DictCandidateView>,
>
    decreases entries.len(),
{
    if entries.len() == 0 {
        None
    } else if entries[0].reading == reading {
        Some(entries[0].candidates)
    } else {
        entry_for(entries.drop_first(), reading)
    }
}

impl Dictionary {
    /// The entry for exactly this reading.
    pub fn exact_match_search(&self, reading: &str) -> (r: Option<&DictEntry>)
        ensures
            r is Some <==> entry_for(self@, reading@) is Some,
            r is Some ==> dict_views(r->0.candidates@) == entry_for(self@, reading@)->0,
    {
        let mut i: usize = 0;
        assert(self@.skip(0) =~= self@);
        while i < self.entries.len()
            invariant
                i <= self.entries.len(),
                entry_for(self@.skip(i as int), reading@) == entry_for(self@, reading@),
            decreases self.entries.len() - i,
        {
            assert(self@.skip(i as int)[0] == self.entries@[i as int]@);
            if same_text(self.entries[i].reading.as_str(), reading) {
                return Some(&self.entries[i]);
            }
            assert(self@.skip(i as int).drop_first() =~= self@.skip(i + 1));
            i += 1;
        }
        None
    }
}

/// `s`, which is in order of score, with `x` behind all that score no worse.
pub open spec fn insert_by_score(s: Seq<DictCandidateView>, x: DictCandidateView) -> Seq<
    DictCandidateView,
>
    decreases s.len(),
{
    if s.len() == 0 || s.last().score <= x.score {
        s.push(x)
    } else {
        insert_by_score(s.drop_last(), x).push(s.last())
    }
}

/// `s` in order of score, where equal scores keep their order.
pub open spec fn by_score(s: Seq<DictCandidateView>) -> Seq<DictCandidateView>
    decreases s.len(),
{
    if s.len() == 0 {
        Seq::empty()
    } else {
        insert_by_score(by_score(s.drop_last()), s.last())
    }
}

proof fn lemma_insert_at(s: Seq<DictCandidateView>, x: DictCandidateView, p: int)
    requires
        0 <= p <= s.len(),
        forall|j: int| p <= j < s.len() ==> (#[trigger] s[j]).score > x.score,
        p > 0 ==> s[p - 1].score <= x.score,
    ensures
        insert_by_score(s, x) == s.insert(p, x),
    decreases s.len(),
{
    if p == s.len() {
        assert(s.insert(p, x) =~= s.push(x));
    } else {
        assert(s[s.len() - 1].score > x.score);
        let front = s.drop_last();
        assert forall|j: int| p <= j < front.len() implies (#[trigger] front[j]).score
            > x.score by {
            assert(s[j].score > x.score);
        }
        lemma_insert_at(front, x, p);
        assert(s.insert(p, x) =~= front.insert(p, x).push(s.last()));
    }
}

/// Puts dictionary candidates in order of score; equal scores keep their order.
pub fn sort_by_score(v: &Vec<DictCandidate>) -> (r: Vec<DictCandidate>)
    ensures
        dict_views(r@) == by_score(dict_views(v@)),
{
    let ghost all = dict_views(v@);
    let mut r: Vec<DictCandidate> = Vec::new();
    let mut i: usize = 0;
    assert(dict_views(r@) =~= by_score(all.take(0)));
    while i < v.len()
        invariant
            i <= v.len(),
            all == dict_views(v@),
            dict_views(r@) == by_score(all.take(i as int)),
        decreases v.len() - i,
    {
        let x = v[i].clone();
        let mut p = r.len();
        while p > 0 && r[p - 1].score > x.score
            invariant
                p <= r.len(),
                forall|j: int| p <= j < r.len() ==> (#[trigger] r@[j]).score > x.score,
            decreases p,
        {
            p -= 1;
        }
        let ghost sorted = dict_views(r@);
        proof {
            assert forall|j: int| p <= j < sorted.len() implies (#[trigger] sorted[j]).score
                > x.score by {
                assert(r@[j].score > x.score);
            }
            lemma_insert_at(sorted, x@, p as int);
            assert(all.take(i + 1).drop_last() =~= all.take(i as int));
        }
        r.insert(p, x);
        assert(dict_views(r@) =~= sorted.insert(p as int, x@));
        i += 1;
    }
    assert(all.take(i as int) =~= all);
    r
}

/// No candidate stands behind one with a worse score.
pub open spec fn in_score_order(s: Seq<DictCandidateView>) -> bool {
    forall|i: int, j: int|
        0 <= i <= j < s.len() ==> (#[trigger] s[i]).score <= (#[trigger] s[j]).score
}

/// The candidates with this score.
pub open spec fn with_score(s: Seq<DictCandidateView>, score: i32) -> Seq<DictCandidateView>
    decreases s.len(),
{
    if s.len() == 0 {
        Seq::empty()
    } else if s.last().score == score {
        with_score(s.drop_last(), score).push(s.last())
    } else {
        with_score(s.drop_last(), score)
    }
}

proof fn lemma_insert_keeps_order(s: Seq<DictCandidateView>, x: DictCandidateView, score: i32)
    requires
        in_score_order(s),
    ensures
        in_score_order(insert_by_score(s, x)),
        insert_by_score(s, x).to_multiset() == s.to_multiset().insert(x),
        insert_by_score(s, x).len() == s.len() + 1,
        forall|j: int|
            0 <= j < insert_by_score(s, x).len() ==> (#[trigger] insert_by_score(s, x)[j]).score
                <= x.score || s.len() > 0 && insert_by_score(s, x)[j].score <= s.last().score,
        with_score(insert_by_score(s, x), score) == with_score(s.push(x), score),
    decreases s.len(),
{
    broadcast use vstd::seq_lib::group_to_multiset_ensures;

    assert(s.push(x).drop_last() =~= s);
    if s.len() == 0 || s.last().score <= x.score {
        assert forall|i: int, j: int| 0 <= i <= j < s.push(x).len() implies (#[trigger] s.push(
            x,
        )[i]).score <= (#[trigger] s.push(x)[j]).score by {
            if i < s.len() {
                assert(s[i].score <= s[s.len() - 1].score);
            }
        }
    } else {
        let front = s.drop_last();
        let last = s.last();
        let inner = insert_by_score(front, x);
        assert forall|i: int, j: int| 0 <= i <= j < front.len() implies (#[trigger] front[i]).score
            <= (#[trigger] front[j]).score by {
            assert(s[i].score <= s[j].score);
        }
        lemma_insert_keeps_order(front, x, score);
        assert(front.push(last) =~= s);
        assert(inner.push(last).drop_last() =~= inner);
        assert(front.push(x).drop_last() =~= front);
        if front.len() > 0 {
            assert(s[front.len() - 1].score <= s[s.len() - 1].score);
        }
        let r = inner.push(last);
        assert forall|j: int| 0 <= j < r.len() implies (#[trigger] r[j]).score <= last.score by {
            if j < inner.len() {
                assert(inner[j].score <= x.score || front.len() > 0 && inner[j].score
                    <= front.last().score);
            }
        }
        assert forall|i: int, j: int| 0 <= i <= j < r.len() implies (#[trigger] r[i]).score <= (
        #[trigger] r[j]).score by {
            if j < inner.len() {
                assert(inner[i].score <= inner[j].score);
            }
        }
        assert(with_score(s, score) == if last.score == score {
            with_score(front, score).push(last)
        } else {
            with_score(front, score)
        });
        assert(with_score(front.push(x), score) == if x.score == score {
            with_score(front, score).push(x)
        } else {
            with_score(front, score)
        });
        assert(with_score(r, score) == if last.score == score {
            with_score(inner, score).push(last)
        } else {
            with_score(inner, score)
        });
        assert(front.to_multiset().insert(x).insert(last) =~= front.to_multiset().insert(
            last,
        ).insert(x));
    }
}

/// Sorting puts the scores in order, keeps every candidate, and keeps the order of
/// candidates with equal scores.
pub proof fn law_by_score(s: Seq<DictCandidateView>, score: i32)
    ensures
        in_score_order(by_score(s)),
        by_score(s).to_multiset() == s.to_multiset(),
        by_score(s).len() == s.len(),
        with_score(by_score(s), score) == with_score(s, score),
    decreases s.len(),
{
    broadcast use vstd::seq_lib::group_to_multiset_ensures;

    if s.len() > 0 {
        let front = s.drop_last();
        law_by_score(front, score);
        lemma_insert_keeps_order(by_score(front), s.last(), score);
        assert(front.push(s.last()) =~= s);
        assert(by_score(front).push(s.last()).drop_last() =~= by_score(front));
    } else {
        assert(by_score(s) =~= s);
    }
}

/// A conversion that the user has chosen before.
#[derive(Debug)]
pub struct LearnedEntry {
    pub reading: String,
    pub surface: String,
}

impl View for LearnedEntry {
    type V = (Seq<char>, Seq<char>);

    open spec fn view(&self) -> (Seq<char>, Seq<char>) {
        (self.reading@, self.surface@)
    }
}

impl Clone for LearnedEntry {
    fn clone(&self) -> (r: Self)
        ensures
            r == *self,
    {
        LearnedEntry { reading: self.reading.clone(), surface: self.surface.clone() }
    }
}

pub open spec fn learned_views(v: Seq<LearnedEntry>) -> Seq<(Seq<char>, Seq<char>)> {
    v.map_values(|e: LearnedEntry| e@)
}

/// What the user has chosen before, the most recent choice first.
#[derive(Debug)]
pub struct LearningCache {
    pub entries: Vec<LearnedEntry>,
}

impl View for LearningCache {
    type V = Seq<(Seq<char>, Seq<char>)>;

    open spec fn view(&self) -> Seq<(Seq<char>, Seq<char>)> {
        learned_views(self.entries@)
    }
}

impl Clone for LearningCache {
    fn clone(&self) -> (r: Self)
        ensures
            r@ == self@,
    {
        let mut entries: Vec<LearnedEntry> = Vec::new();
        let mut i: usize = 0;
        while i < self.entries.len()
            invariant
                i <= self.entries.len(),
                entries@ == self.entries@.take(i as int),
            decreases self.entries.len() - i,
        {
            entries.push(self.entries[i].clone());
            i += 1;
        }
        assert(entries@ =~= self.entries@);
        LearningCache { entries }
    }
}

/// The surfaces chosen for a reading, in the order of the cache.
pub open spec fn learned_for(entries: Seq<(Seq<char>, Seq<char>)>, reading: Seq<char>) -> Seq<
    Seq<char>,
>
    decreases entries.len(),
{
    if entries.len() == 0 {
        Seq::empty()
    } else if entries.last().0 == reading {
        learned_for(entries.drop_last(), reading).push(entries.last().1)
    } else {
        learned_for(entries.drop_last(), reading)
    }
}

/// The choices for readings that start with `prefix`, in the order of the cache.
pub open spec fn learned_under(entries: Seq<(Seq<char>, Seq<char>)>, prefix: Seq<char>) -> Seq<
    (Seq<char>, Seq<char>),
>
    decreases entries.len(),
{
    if entries.len() == 0 {
        Seq::empty()
    } else if text::starts_with(entries.last().0, prefix) {
        learned_under(entries.drop_last(), prefix).push(entries.last())
    } else {
        learned_under(entries.drop_last(), prefix)
    }
}

/// The entries other than `e`.
pub open spec fn without(
    entries: Seq<(Seq<char>, Seq<char>)>,
    e: (Seq<char>, Seq<char>),
) -> Seq<(Seq<char>, Seq<char>)>
    decreases entries.len(),
{
    if entries.len() == 0 {
        Seq::empty()
    } else if entries.last() == e {
        without(entries.drop_last(), e)
    } else {
        without(entries.drop_last(), e).push(entries.last())
    }
}

/// The cache after the choice of `surface` for `reading`: that choice comes first.
pub open spec fn learned(
    entries: Seq<(Seq<char>, Seq<char>)>,
    reading: Seq<char>,
    surface: Seq<char>,
) -> Seq<(Seq<char>, Seq<char>)> {
    seq![(reading, surface)] + without(entries, (reading, surface))
}

/// The texts of a vector of strings.
pub open spec fn texts(v: Seq<String>) -> Seq<Seq<char>> {
    v.map_values(|s: String| s@)
}

pub open spec fn text_pairs(v: Seq<(String, String)>) -> Seq<(Seq<char>, Seq<char>)> {
    v.map_values(|p: (String, String)| (p.0@, p.1@))
}

impl LearningCache {
    pub fn new() -> (r: Self)
        ensures
            r@ == Seq::<(Seq<char>, Seq<char>)>::empty(),
    {
        let r = LearningCache { entries: Vec::new() };
        assert(r@ =~= Seq::empty());
        r
    }

    /// The surfaces chosen for exactly this reading.
    pub fn lookup(&self, reading: &str) -> (r: Vec<String>)
        ensures
            texts(r@) == learned_for(self@, reading@),
    {
        let mut r: Vec<String> = Vec::new();
        let mut i: usize = 0;
        assert(texts(r@) =~= Seq::empty());
        assert(self@.take(0) =~= Seq::empty());
        while i < self.entries.len()
            invariant
                i <= self.entries.len(),
                texts(r@) == learned_for(self@.take(i as int), reading@),
            decreases self.entries.len() - i,
        {
            assert(self@.take(i + 1).drop_last() =~= self@.take(i as int));
            assert(self@.take(i + 1).last() == self.entries@[i as int]@);
            if same_text(self.entries[i].reading.as_str(), reading) {
                let ghost before = texts(r@);
                let surface = self.entries[i].surface.clone();
                r.push(surface);
                assert(texts(r@) =~= before.push(surface@));
            }
            i += 1;
        }
        assert(self@.take(i as int) =~= self@);
        r
    }

    /// The choices, reading and surface, whose reading starts with `prefix`.
    pub fn prefix_lookup(&self, prefix: &str) -> (r: Vec<(String, String)>)
        ensures
            text_pairs(r@) == learned_under(self@, prefix@),
    {
        let mut r: Vec<(String, String)> = Vec::new();
        let mut i: usize = 0;
        assert(text_pairs(r@) =~= Seq::empty());
        assert(self@.take(0) =~= Seq::empty());
        while i < self.entries.len()
            invariant
                i <= self.entries.len(),
                text_pairs(r@) == learned_under(self@.take(i as int), prefix@),
            decreases self.entries.len() - i,
        {
            assert(self@.take(i + 1).drop_last() =~= self@.take(i as int));
            assert(self@.take(i + 1).last() == self.entries@[i as int]@);
            if has_prefix(self.entries[i].reading.as_str(), prefix) {
                let ghost before = text_pairs(r@);
                let reading = self.entries[i].reading.clone();
                let surface = self.entries[i].surface.clone();
                r.push((reading, surface));
                assert(text_pairs(r@) =~= before.push((reading@, surface@)));
            }
            i += 1;
        }
        assert(self@.take(i as int) =~= self@);
        r
    }

    /// Remembers that the user chose `surface` for `reading`.
    pub fn record(&mut self, reading: &str, surface: &str)
        ensures
            final(self)@ == learned(old(self)@, reading@, surface@),
    {
        let ghost all = self@;
        let ghost new = (reading@, surface@);
        let mut entries: Vec<LearnedEntry> = Vec::new();
        let first = LearnedEntry { reading: reading.to_owned(), surface: surface.to_owned() };
        entries.push(first);
        let mut i: usize = 0;
        assert(all.take(0) =~= Seq::empty());
        assert(learned_views(entries@) =~= seq![new] + without(all.take(0), new));
        while i < self.entries.len()
            invariant
                i <= self.entries.len(),
                all == self@,
                all == old(self)@,
                new == (reading@, surface@),
                learned_views(entries@) == seq![new] + without(all.take(i as int), new),
            decreases self.entries.len() - i,
        {
            assert(all.take(i + 1).drop_last() =~= all.take(i as int));
            assert(all.take(i + 1).last() == self.entries@[i as int]@);
            let ghost kept = learned_views(entries@);
            if !(same_text(self.entries[i].reading.as_str(), reading) && same_text(
                self.entries[i].surface.as_str(),
                surface,
            )) {
                let e = self.entries[i].clone();
                entries.push(e);
                assert(learned_views(entries@) =~= kept.push(e@));
                assert(kept.push(e@) =~= seq![new] + without(all.take(i as int), new).push(e@));
            }
            i += 1;
        }
        assert(all.take(i as int) =~= all);
        self.entries = entries;
    }
}

/// A lookup gives back what was recorded last, as the first of its answers.
pub proof fn law_recorded_comes_first(
    entries: Seq<(Seq<char>, Seq<char>)>,
    reading: Seq<char>,
    surface: Seq<char>,
)
    ensures
        learned_for(learned(entries, reading, surface), reading).len() > 0,
        learned_for(learned(entries, reading, surface), reading)[0] == surface,
{
    let e = (reading, surface);
    lemma_learned_for_head(without(entries, e), reading, surface);
}

proof fn lemma_learned_for_head(
    rest: Seq<(Seq<char>, Seq<char>)>,
    reading: Seq<char>,
    surface: Seq<char>,
)
    ensures
        learned_for(seq![(reading, surface)] + rest, reading) == seq![surface] + learned_for(
            rest,
            reading,
        ),
    decreases rest.len(),
{
    let whole = seq![(reading, surface)] + rest;
    if rest.len() == 0 {
        assert(whole.drop_last() =~= Seq::empty());
        assert(learned_for(whole.drop_last(), reading) =~= Seq::empty());
        assert(learned_for(whole, reading) =~= seq![surface] + learned_for(rest, reading));
    } else {
        lemma_learned_for_head(rest.drop_last(), reading, surface);
        assert(whole.drop_last() =~= seq![(reading, surface)] + rest.drop_last());
        assert(learned_for(whole, reading) =~= seq![surface] + learned_for(rest, reading));
    }
}

/// What is recorded twice is remembered once.
pub proof fn law_record_twice(
    entries: Seq<(Seq<char>, Seq<char>)>,
    reading: Seq<char>,
    surface: Seq<char>,
)
    ensures
        learned(learned(entries, reading, surface), reading, surface) == learned(
            entries,
            reading,
            surface,
        ),
{
    let e = (reading, surface);
    lemma_without_twice(without(entries, e), e);
    lemma_without_none(entries, e);
}

proof fn lemma_without_none(entries: Seq<(Seq<char>, Seq<char>)>, e: (Seq<char>, Seq<char>))
    ensures
        without(without(entries, e), e) == without(entries, e),
    decreases entries.len(),
{
    if entries.len() > 0 {
        lemma_without_none(entries.drop_last(), e);
        if entries.last() != e {
            assert(without(entries, e).drop_last() =~= without(entries.drop_last(), e));
        }
    }
}

proof fn lemma_without_twice(rest: Seq<(Seq<char>, Seq<char>)>, e: (Seq<char>, Seq<char>))
    ensures
        without(seq![e] + rest, e) == without(rest, e),
    decreases rest.len(),
{
    let whole = seq![e] + rest;
    if rest.len() == 0 {
        assert(whole.drop_last() =~= Seq::empty());
        assert(without(whole.drop_last(), e) =~= Seq::empty());
    } else {
        lemma_without_twice(rest.drop_last(), e);
        assert(whole.drop_last() =~= seq![e] + rest.drop_last());
    }
}

/// What a conversion model was asked.
#[derive(Debug)]
pub struct ModelRequest {
    /// The reading, in katakana.
    pub katakana: String,
    /// The text to the left of the input.
    pub context: String,
    /// How many candidates are wanted.
    pub num_candidates: usize,
    /// Whether the light model was asked, and not the main one.
    pub light: bool,
}

#[verifier::ext_equal]
pub struct RequestView {
    pub katakana: Seq<char>,
    pub context: Seq<char>,
    pub num_candidates: nat,
    pub light: bool,
}

impl View for ModelRequest {
    type V = RequestView;

    open spec fn view(&self) -> RequestView {
        RequestView {
            katakana: self.katakana@,
            context: self.context@,
            num_candidates: self.num_candidates as nat,
            light: self.light,
        }
    }
}

impl Clone for ModelRequest {
    fn clone(&self) -> (r: Self)
        ensures
            r == *self,
    {
        ModelRequest {
            katakana: self.katakana.clone(),
            context: self.context.clone(),
            num_candidates: self.num_candidates,
            light: self.light,
        }
    }
}

pub open spec fn request_views(v: Seq<ModelRequest>) -> Seq<RequestView> {
    v.map_values(|r: ModelRequest| r@)
}

/// What a conversion model answered, and how long it took.
#[derive(Debug, Clone)]
pub struct ModelAnswer {
    pub katakana: String,
    pub context: String,
    pub num_candidates: usize,
    pub texts: Vec<String>,
    pub elapsed_ms: u64,
}

#[verifier::ext_equal]
pub struct AnswerView {
    pub katakana: Seq<char>,
    pub context: Seq<char>,
    pub num_candidates: nat,
    pub texts: Seq<Seq<char>>,
    pub elapsed_ms: u64,
}

impl View for ModelAnswer {
    type V = AnswerView;

    open spec fn view(&self) -> AnswerView {
        AnswerView {
            katakana: self.katakana@,
            context: self.context@,
            num_candidates: self.num_candidates as nat,
            texts: texts(self.texts@),
            elapsed_ms: self.elapsed_ms,
        }
    }
}

/// A conversion model: its name, and its answers as far as they are known. A model is
/// asked outside the engine; the engine reads the answers.
#[derive(Debug, Clone)]
pub struct KanaKanjiConverter {
    pub display_name: String,
    pub answers: Vec<ModelAnswer>,
}

#[verifier::ext_equal]
pub struct ModelView {
    pub name: Seq<char>,
    pub answers: Seq<AnswerView>,
}

impl View for KanaKanjiConverter {
    type V = ModelView;

    open spec fn view(&self) -> ModelView {
        ModelView {
            name: self.display_name@,
            answers: self.answers@.map_values(|a: ModelAnswer| a@),
        }
    }
}

/// The first answer to a question.
pub open spec fn answer_to(
    answers: Seq<AnswerView>,
    katakana: Seq<char>,
    context: Seq<char>,
    num_candidates: nat,
) -> Option<AnswerView>
    decreases answers.len(),
{
    if answers.len() == 0 {
        None
    } else if answers[0].katakana == katakana && answers[0].context == context
        && answers[0].num_candidates == num_candidates {
        Some(answers[0])
    } else {
        answer_to(answers.drop_first(), katakana, context, num_candidates)
    }
}

impl KanaKanjiConverter {
    /// The answer to a question, if it is known.
    pub fn convert(&self, katakana: &str, context: &str, num_candidates: usize) -> (r: Option<
        &ModelAnswer,
    >)
        ensures
            r is Some <==> answer_to(
                self@.answers,
                katakana@,
                context@,
                num_candidates as nat,
            ) is Some,
            r is Some ==> r->0@ == answer_to(
                self@.answers,
                katakana@,
                context@,
                num_candidates as nat,
            )->0,
    {
        let ghost all = self@.answers;
        let mut i: usize = 0;
        assert(all.skip(0) =~= all);
        while i < self.answers.len()
            invariant
                i <= self.answers.len(),
                all == self@.answers,
                answer_to(all.skip(i as int), katakana@, context@, num_candidates as nat)
                    == answer_to(all, katakana@, context@, num_candidates as nat),
            decreases self.answers.len() - i,
        {
            assert(all.skip(i as int)[0] == self.answers@[i as int]@);
            if same_text(self.answers[i].katakana.as_str(), katakana) && same_text(
                self.answers[i].context.as_str(),
                context,
            ) && self.answers[i].num_candidates == num_candidates {
                return Some(&self.answers[i]);
            }
            assert(all.skip(i as int).drop_first() =~= all.skip(i + 1));
            i += 1;
        }
        None
    }
}

/// A variant of an input, such as another bracket for a bracket.
#[derive(Debug)]
pub struct RewriteRule {
    pub input: String,
    pub variant: String,
    pub description: Option<String>,
}

#[verifier::ext_equal]
pub struct RuleView {
    pub input: Seq<char>,
    pub variant: Seq<char>,
    pub description: Option<Seq<char>>,
}

impl View for RewriteRule {
    type V = RuleView;

    open spec fn view(&self) -> RuleView {
        RuleView {
            input: self.input@,
            variant: self.variant@,
            description: candidate::optional(self.description),
        }
    }
}

impl Clone for RewriteRule {
    fn clone(&self) -> (r: Self)
        ensures
            r == *self,
    {
        RewriteRule {
            input: self.input.clone(),
            variant: self.variant.clone(),
            description: copy_optional(&self.description),
        }
    }
}

pub open spec fn rule_views(v: Seq<RewriteRule>) -> Seq<RuleView> {
    v.map_values(|r: RewriteRule| r@)
}

/// The rules for an input, in their order.
pub open spec fn rules_for(rules: Seq<RuleView>, input: Seq<char>) -> Seq<RuleView>
    decreases rules.len(),
{
    if rules.len() == 0 {
        Seq::empty()
    } else if rules.last().input == input {
        rules_for(rules.drop_last(), input).push(rules.last())
    } else {
        rules_for(rules.drop_last(), input)
    }
}

/// The table of variants.
#[derive(Debug, Clone)]
pub struct Rewriters {
    pub rules: Vec<RewriteRule>,
}

impl View for Rewriters {
    type V = Seq<RuleView>;

    open spec fn view(&self) -> Seq<RuleView> {
        rule_views(self.rules@)
    }
}

impl Rewriters {
    /// The variants of an input.
    pub fn rewrite(&self, input: &str) -> (r: Vec<RewriteRule>)
        ensures
            rule_views(r@) == rules_for(self@, input@),
    {
        let mut r: Vec<RewriteRule> = Vec::new();
        let mut i: usize = 0;
        assert(rule_views(r@) =~= Seq::empty());
        assert(self@.take(0) =~= Seq::empty());
        while i < self.rules.len()
            invariant
                i <= self.rules.len(),
                rule_views(r@) == rules_for(self@.take(i as int), input@),
            decreases self.rules.len() - i,
        {
            assert(self@.take(i + 1).drop_last() =~= self@.take(i as int));
            assert(self@.take(i + 1).last() == self.rules@[i as int]@);
            if same_text(self.rules[i].input.as_str(), input) {
                let ghost before = rule_views(r@);
                let rule = self.rules[i].clone();
                r.push(rule);
                assert(rule_views(r@) =~= before.push(rule@));
            }
            i += 1;
        }
        assert(self@.take(i as int) =~= self@);
        r
    }
}

/// A symbol and its name.
#[derive(Debug, Clone)]
pub struct SymbolName {
    pub symbol: String,
    pub name: String,
}

impl View for SymbolName {
    type V = (Seq<char>, Seq<char>);

    open spec fn view(&self) -> (Seq<char>, Seq<char>) {
        (self.symbol@, self.name@)
    }
}

/// The table of symbol names.
#[derive(Debug, Clone)]
pub struct Symbols {
    pub names: Vec<SymbolName>,
}

impl View for Symbols {
    type V = Seq<(Seq<char>, Seq<char>)>;

    open spec fn view(&self) -> Seq<(Seq<char>, Seq<char>)> {
        self.names@.map_values(|n: SymbolName| n@)
    }
}

/// The first name of a symbol.
pub open spec fn symbol_name(names: Seq<(Seq<char>, Seq<char>)>, symbol: Seq<char>) -> Option<
    Seq<char>,
>
    decreases names.len(),
{
    if names.len() == 0 {
        None
    } else if names[0].0 == symbol {
        Some(names[0].1)
    } else {
        symbol_name(names.drop_first(), symbol)
    }
}

impl Symbols {
    /// The name of a symbol.
    pub fn symbol_description(&self, symbol: &str) -> (r: Option<String>)
        ensures
            r is Some <==> symbol_name(self@, symbol@) is Some,
            r is Some ==> r->0@ == symbol_name(self@, symbol@)->0,
    {
        let mut i: usize = 0;
        assert(self@.skip(0) =~= self@);
        while i < self.names.len()
            invariant
                i <= self.names.len(),
                symbol_name(self@.skip(i as int), symbol@) == symbol_name(self@, symbol@),
            decreases self.names.len() - i,
        {
            assert(self@.skip(i as int)[0] == self.names@[i as int]@);
            if same_text(self.names[i].symbol.as_str(), symbol) {
                return Some(self.names[i].name.clone());
            }
            assert(self@.skip(i as int).drop_first() =~= self@.skip(i + 1));
            i += 1;
        }
        None
    }
}

/// An entry of the cache is for this reading.
pub open spec fn for_reading(reading: Seq<char>) -> spec_fn((Seq<char>, Seq<char>)) -> bool {
    |e: (Seq<char>, Seq<char>)| e.0 == reading
}

/// An entry of the cache is for a reading that starts with `prefix`.
pub open spec fn starting_with(prefix: Seq<char>) -> spec_fn((Seq<char>, Seq<char>)) -> bool {
    |e: (Seq<char>, Seq<char>)|
        e.0.len() >= prefix.len() && e.0.subrange(0, prefix.len() as int) == prefix
}

/// An entry of the cache is another than `x`.
pub open spec fn other_than(x: (Seq<char>, Seq<char>)) -> spec_fn(
    (Seq<char>, Seq<char>),
) -> bool {
    |e: (Seq<char>, Seq<char>)| e != x
}

/// The surface of an entry of the cache.
pub open spec fn surface_of() -> spec_fn((Seq<char>, Seq<char>)) -> Seq<char> {
    |e: (Seq<char>, Seq<char>)| e.1
}

/// A rule is for this input.
pub open spec fn for_input(input: Seq<char>) -> spec_fn(RuleView) -> bool {
    |r: RuleView| r.input == input
}

/// A lookup gives the surfaces recorded for exactly this reading, in the order of the
/// cache.
pub proof fn law_lookup(entries: Seq<(Seq<char>, Seq<char>)>, reading: Seq<char>)
    ensures
        learned_for(entries, reading) == entries.filter(for_reading(reading)).map_values(
            surface_of(),
        ),
    decreases entries.len(),
{
    reveal(Seq::filter);
    if entries.len() > 0 {
        law_lookup(entries.drop_last(), reading);
    }
    assert(learned_for(entries, reading) =~= entries.filter(for_reading(reading)).map_values(
        surface_of(),
    ));
}

/// A prefix lookup gives the entries whose reading starts with the prefix, in the order
/// of the cache.
pub proof fn law_prefix_lookup(entries: Seq<(Seq<char>, Seq<char>)>, prefix: Seq<char>)
    ensures
        learned_under(entries, prefix) == entries.filter(starting_with(prefix)),
    decreases entries.len(),
{
    reveal(Seq::filter);
    if entries.len() > 0 {
        law_prefix_lookup(entries.drop_last(), prefix);
        let full = entries.last().0;
        if full.len() >= prefix.len() {
            assert(full.take(prefix.len() as int) =~= full.subrange(0, prefix.len() as int));
        }
    }
    assert(learned_under(entries, prefix) =~= entries.filter(starting_with(prefix)));
}

/// A choice that is recorded stands in front, once; of the others none is lost, and they
/// keep their order.
pub proof fn law_record(
    entries: Seq<(Seq<char>, Seq<char>)>,
    reading: Seq<char>,
    surface: Seq<char>,
)
    ensures
        learned(entries, reading, surface) == seq![(reading, surface)] + entries.filter(
            other_than((reading, surface)),
        ),
{
    lemma_without_filter(entries, (reading, surface));
}

proof fn lemma_without_filter(entries: Seq<(Seq<char>, Seq<char>)>, x: (Seq<char>, Seq<char>))
    ensures
        without(entries, x) == entries.filter(other_than(x)),
    decreases entries.len(),
{
    reveal(Seq::filter);
    if entries.len() > 0 {
        lemma_without_filter(entries.drop_last(), x);
    }
    assert(without(entries, x) =~= entries.filter(other_than(x)));
}

/// The variants of an input are those of the rules for it, in the order of the table.
pub proof fn law_rules_for(rules: Seq<RuleView>, input: Seq<char>)
    ensures
        rules_for(rules, input) == rules.filter(for_input(input)),
    decreases rules.len(),
{
    reveal(Seq::filter);
    if rules.len() > 0 {
        law_rules_for(rules.drop_last(), input);
    }
    assert(rules_for(rules, input) =~= rules.filter(for_input(input)));
}

/// A dictionary gives what stands under a reading at its first place.
pub proof fn law_entry_for(entries: Seq<DictEntryView>, reading: Seq<char>)
    ensures
        forall|i: int|
            0 <= i < entries.len() && (#[trigger] entries[i]).reading == reading && (forall|j: int|
                0 <= j < i ==> (#[trigger] entries[j]).reading != reading) ==> entry_for(
                entries,
                reading,
            ) == Some(entries[i].candidates),
        (forall|i: int| 0 <= i < entries.len() ==> (#[trigger] entries[i]).reading != reading)
            ==> entry_for(entries, reading) is None,
    decreases entries.len(),
{
    if entries.len() > 0 {
        let rest = entries.drop_first();
        law_entry_for(rest, reading);
        assert forall|i: int|
            0 <= i < entries.len() && (#[trigger] entries[i]).reading == reading && (forall|j: int|
                0 <= j < i ==> (#[trigger] entries[j]).reading != reading) implies entry_for(
            entries,
            reading,
        ) == Some(entries[i].candidates) by {
            if i > 0 {
                assert(entries[0].reading != reading);
                assert(rest[i - 1] == entries[i]);
                assert forall|j: int| 0 <= j < i - 1 implies (#[trigger] rest[j]).reading
                    != reading by {
                    assert(entries[j + 1].reading != reading);
                }
            }
        }
        if forall|i: int| 0 <= i < entries.len() ==> (#[trigger] entries[i]).reading != reading {
            assert(entries[0].reading != reading);
            assert forall|i: int| 0 <= i < rest.len() implies (#[trigger] rest[i]).reading
                != reading by {
                assert(entries[i + 1].reading != reading);
            }
        }
    }
}

/// The name of a symbol is the one at its first place in the table.
pub proof fn law_symbol_name(names: Seq<(Seq<char>, Seq<char>)>, symbol: Seq<char>)
    ensures
        forall|i: int|
            0 <= i < names.len() && (#[trigger] names[i]).0 == symbol && (forall|j: int|
                0 <= j < i ==> (#[trigger] names[j]).0 != symbol) ==> symbol_name(names, symbol)
                == Some(names[i].1),
        (forall|i: int| 0 <= i < names.len() ==> (#[trigger] names[i]).0 != symbol)
            ==> symbol_name(names, symbol) is None,
    decreases names.len(),
{
    if names.len() > 0 {
        let rest = names.drop_first();
        law_symbol_name(rest, symbol);
        assert forall|i: int|
            0 <= i < names.len() && (#[trigger] names[i]).0 == symbol && (forall|j: int|
                0 <= j < i ==> (#[trigger] names[j]).0 != symbol) implies symbol_name(names, symbol)
            == Some(names[i].1) by {
            if i > 0 {
                assert(names[0].0 != symbol);
                assert(rest[i - 1] == names[i]);
                assert forall|j: int| 0 <= j < i - 1 implies (#[trigger] rest[j]).0 != symbol by {
                    assert(names[j + 1].0 != symbol);
                }
            }
        }
        if forall|i: int| 0 <= i < names.len() ==> (#[trigger] names[i]).0 != symbol {
            assert(names[0].0 != symbol);
            assert forall|i: int| 0 <= i < rest.len() implies (#[trigger] rest[i]).0 != symbol by {
                assert(names[i + 1].0 != symbol);
            }
        }
    }
}

/// The answer answers this question.
pub open spec fn answers_question(
    a: AnswerView,
    katakana: Seq<char>,
    context: Seq<char>,
    num_candidates: nat,
) -> bool {
    a.katakana == katakana && a.context == context && a.num_candidates == num_candidates
}

/// A model's answer is the first it has for exactly this reading, this context and this
/// number of candidates.
pub proof fn law_answer_to(
    answers: Seq<AnswerView>,
    katakana: Seq<char>,
    context: Seq<char>,
    n: nat,
)
    ensures
        forall|i: int|
            0 <= i < answers.len() && answers_question(
                #[trigger] answers[i],
                katakana,
                context,
                n,
            ) && (forall|j: int|
                0 <= j < i ==> !answers_question(#[trigger] answers[j], katakana, context, n))
                ==> answer_to(answers, katakana, context, n) == Some(answers[i]),
        (forall|i: int|
            0 <= i < answers.len() ==> !answers_question(
                #[trigger] answers[i],
                katakana,
                context,
                n,
            )) ==> answer_to(answers, katakana, context, n) is None,
    decreases answers.len(),
{
    if answers.len() > 0 {
        let rest = answers.drop_first();
        law_answer_to(rest, katakana, context, n);
        assert forall|i: int|
            0 <= i < answers.len() && answers_question(
                #[trigger] answers[i],
                katakana,
                context,
                n,
            ) && (forall|j: int|
                0 <= j < i ==> !answers_question(
                    #[trigger] answers[j],
                    katakana,
                    context,
                    n,
                )) implies answer_to(answers, katakana, context, n) == Some(answers[i]) by {
            if i > 0 {
                assert(!answers_question(answers[0], katakana, context, n));
                assert(rest[i - 1] == answers[i]);
                assert forall|j: int| 0 <= j < i - 1 implies !answers_question(
                    #[trigger] rest[j],
                    katakana,
                    context,
                    n,
                ) by {
                    assert(!answers_question(answers[j + 1], katakana, context, n));
                }
            }
        }
        if forall|i: int|
            0 <= i < answers.len() ==> !answers_question(
                #[trigger] answers[i],
                katakana,
                context,
                n,
            ) {
            assert(!answers_question(answers[0], katakana, context, n));
            assert forall|i: int| 0 <= i < rest.len() implies !answers_question(
                #[trigger] rest[i],
                katakana,
                context,
                n,
            ) by {
                assert(!answers_question(answers[i + 1], katakana, context, n));
            }
        }
    }
}

} // verus!
