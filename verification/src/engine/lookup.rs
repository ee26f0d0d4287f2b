//! Candidates that are looked up: in the dictionaries, in the learning cache, and in
//! the table of variants.
use super::candidate;
use super::candidate::{
    copy_optional, AnnotatedCandidate, AnnotatedView, Candidate, CandidateBuilder, CandidateSource,
    CandidateView, DEFAULT_PAGE_SIZE,
};
use super::input_method::{InputMethodEngine, SourcesView};
use super::sources;
use super::sources::{sort_by_score, DictCandidate, DictCandidateView, DictEntryView, RuleView};
use crate::distinct;
use crate::distinct::Keyed;
use crate::text;
use crate::text::{char_count, same_text};
use vstd::prelude::*;

verus! {

/// How many candidates the learning cache contributes at most.
pub const MAX_LEARNING_CANDIDATES: usize = 3;

/// Dictionary candidates as conversion candidates.
pub open spec fn from_dict(v: Seq<DictCandidateView>, source: CandidateSource) -> Seq<
    AnnotatedView,
> {
    v.map_values(|c: DictCandidateView| AnnotatedView::plain(c.surface, source))
}

/// What the user dictionary has for a reading.
pub open spec fn user_hits(s: SourcesView, reading: Seq<char>) -> Seq<AnnotatedView> {
    match s.user {
        Some(d) => match sources::entry_for(d, reading) {
            Some(c) => from_dict(c, CandidateSource::UserDictionary),
            None => Seq::empty(),
        },
        None => Seq::empty(),
    }
}

/// What the system dictionary has for a reading, in order of score.
pub open spec fn system_hits(s: SourcesView, reading: Seq<char>) -> Seq<AnnotatedView> {
    match s.system {
        Some(d) => match sources::entry_for(d, reading) {
            Some(c) => from_dict(sources::by_score(c), CandidateSource::Dictionary),
            None => Seq::empty(),
        },
        None => Seq::empty(),
    }
}

/// What the dictionaries have for a reading: first the user's, then the system's,
/// every surface once, at most `limit`.
pub open spec fn dict_hits(s: SourcesView, reading: Seq<char>, limit: nat) -> Seq<AnnotatedView> {
    distinct::at_most(
        distinct::first_of_each(user_hits(s, reading) + system_hits(s, reading)),
        limit,
    )
}

/// Adds dictionary candidates whose surface is new, as long as there are fewer than
/// `limit`.
fn push_dict(
    builder: &mut CandidateBuilder,
    v: &Vec<DictCandidate>,
    source: CandidateSource,
    limit: usize,
)
    requires
        old(builder)@.len() <= limit,
    ensures
        final(builder)@.len() <= limit,
        final(builder)@ == distinct::at_most(
            distinct::extend_new(old(builder)@, from_dict(sources::dict_views(v@), source)),
            limit as nat,
        ),
{
    let ghost base = builder@;
    let ghost all = from_dict(sources::dict_views(v@), source);
    let mut i: usize = 0;
    assert(all.take(0) =~= Seq::empty());
    while i < v.len()
        invariant
            i <= v.len(),
            all == from_dict(sources::dict_views(v@), source),
            builder@.len() <= limit,
            builder@ == distinct::at_most(
                distinct::extend_new(base, all.take(i as int)),
                limit as nat,
            ),
        decreases v.len() - i,
    {
        let ghost before = builder@;
        proof {
            distinct::lemma_extend_step(base, all, i as int);
            distinct::lemma_cut_then_push(
                distinct::extend_new(base, all.take(i as int)),
                all[i as int],
                limit as nat,
            );
        }
        if builder.len() < limit {
            let c = AnnotatedCandidate::new(v[i].surface.clone(), source);
            assert(c@ == all[i as int]);
            builder.push(c);
        } else {
            assert(distinct::at_most(distinct::push_new(before, all[i as int]), limit as nat)
                =~= before);
        }
        i += 1;
    }
    assert(all.take(i as int) =~= all);
}

/// The readings of the exact entries of the cache.
pub open spec fn learned_exactly(surfaces: Seq<Seq<char>>, reading: Seq<char>) -> Seq<
    CandidateView,
> {
    surfaces.map_values(|s: Seq<char>| learned_candidate(reading, s))
}

/// A candidate from the learning cache.
pub open spec fn learned_candidate(reading: Seq<char>, surface: Seq<char>) -> CandidateView {
    CandidateView {
        text: surface,
        reading: Some(reading),
        source_label: Some(candidate::label_of(CandidateSource::Learning)),
        description: None,
    }
}

/// The entries for longer readings, but none for one more than twice as long as
/// what has been typed.
pub open spec fn learned_ahead(entries: Seq<(Seq<char>, Seq<char>)>, reading: Seq<char>) -> Seq<
    CandidateView,
>
    decreases entries.len(),
{
    if entries.len() == 0 {
        Seq::empty()
    } else {
        let before = learned_ahead(entries.drop_last(), reading);
        let (full, surface) = entries.last();
        if full != reading && full.len() <= 2 * reading.len() {
            before.push(learned_candidate(full, surface))
        } else {
            before
        }
    }
}

/// What the learning cache contributes for a reading: choices for exactly this
/// reading, then for longer ones that start with it; every surface once, and only a
/// few.
pub open spec fn learning_hits(
    learning: Option<Seq<(Seq<char>, Seq<char>)>>,
    reading: Seq<char>,
) -> Seq<CandidateView> {
    match learning {
        Some(entries) => distinct::at_most(
            distinct::first_of_each(
                learned_exactly(sources::learned_for(entries, reading), reading) + learned_ahead(
                    sources::learned_under(entries, reading),
                    reading,
                ),
            ),
            MAX_LEARNING_CANDIDATES as nat,
        ),
        None => Seq::empty(),
    }
}

fn has_candidate(v: &Vec<Candidate>, t: &String) -> (r: bool)
    ensures
        r == distinct::has_key(candidate::candidate_views(v@), t@),
{
    let ghost all = candidate::candidate_views(v@);
    let mut i: usize = 0;
    while i < v.len()
        invariant
            i <= v.len(),
            all == candidate::candidate_views(v@),
            forall|j: int| 0 <= j < i ==> (#[trigger] all[j]).key() != t@,
        decreases v.len() - i,
    {
        if v[i].text == *t {
            assert(all[i as int].key() == t@);
            return true;
        }
        i += 1;
    }
    false
}

/// Adds a learned candidate if its surface is new and there are few enough.
fn push_learned(out: &mut Vec<Candidate>, reading: &str, surface: &String)
    requires
        old(out).len() <= MAX_LEARNING_CANDIDATES,
    ensures
        final(out).len() <= MAX_LEARNING_CANDIDATES,
        candidate::candidate_views(final(out)@) == distinct::at_most(
            distinct::push_new(
                candidate::candidate_views(old(out)@),
                learned_candidate(reading@, surface@),
            ),
            MAX_LEARNING_CANDIDATES as nat,
        ),
{
    let ghost before = candidate::candidate_views(out@);
    let ghost new = learned_candidate(reading@, surface@);
    if out.len() < MAX_LEARNING_CANDIDATES {
        if !has_candidate(out, surface) {
            let label = CandidateSource::Learning.label().to_owned();
            let c = Candidate {
                text: surface.clone(),
                reading: Some(reading.to_owned()),
                source_label: Some(label),
                description: None,
            };
            assert(c@ =~= new);
            out.push(c);
            assert(candidate::candidate_views(out@) =~= before.push(new));
        }
    } else {
        assert(distinct::at_most(before.push(new), MAX_LEARNING_CANDIDATES as nat) =~= before);
    }
}

impl InputMethodEngine {
    /// Looks a reading up in the dictionaries. What the user dictionary has comes
    /// first, then what the system dictionary has, in order of score; every surface
    /// once, at most `limit`.
    pub fn search_dictionaries(&self, reading: &str, limit: usize) -> (r: Vec<AnnotatedCandidate>)
        ensures
            candidate::annotated_views(r@) == dict_hits(self@.sources, reading@, limit as nat),
    {
        let ghost s = self@.sources;
        let mut builder = CandidateBuilder::new();
        if let Some(dict) = &self.dicts.user {
            if let Some(entry) = dict.exact_match_search(reading) {
                push_dict(
                    &mut builder,
                    &entry.candidates,
                    CandidateSource::UserDictionary,
                    limit,
                );
            }
        }
        assert(builder@ == distinct::at_most(
            distinct::first_of_each(user_hits(s, reading@)),
            limit as nat,
        ));
        if let Some(dict) = &self.dicts.system {
            if let Some(entry) = dict.exact_match_search(reading) {
                let sorted = sort_by_score(&entry.candidates);
                push_dict(&mut builder, &sorted, CandidateSource::Dictionary, limit);
            }
        }
        proof {
            let a = user_hits(s, reading@);
            let b = system_hits(s, reading@);
            distinct::lemma_cut_then_extend(distinct::first_of_each(a), b, limit as nat);
            distinct::lemma_extend_concat(Seq::empty(), a, b);
            if b.len() == 0 {
                assert(a + b =~= a);
            }
        }
        builder.into_candidates()
    }

    /// Looks a reading up in the learning cache: choices for exactly this reading,
    /// then for longer ones that start with it, three at most.
    pub fn lookup_learning_candidates(&self, reading: &str) -> (r: Vec<Candidate>)
        ensures
            candidate::candidate_views(r@) == learning_hits(self@.learning, reading@),
    {
        let mut out: Vec<Candidate> = Vec::new();
        assert(candidate::candidate_views(out@) =~= Seq::empty());
        let cache = match &self.learning {
            Some(cache) => cache,
            None => {
                return out;
            },
        };
        let ghost max = MAX_LEARNING_CANDIDATES as nat;
        let surfaces = cache.lookup(reading);
        let ghost exact = learned_exactly(sources::texts(surfaces@), reading@);
        let mut i: usize = 0;
        assert(exact.take(0) =~= Seq::empty());
        while i < surfaces.len()
            invariant
                i <= surfaces.len(),
                max == MAX_LEARNING_CANDIDATES,
                exact == learned_exactly(sources::texts(surfaces@), reading@),
                out.len() <= MAX_LEARNING_CANDIDATES,
                candidate::candidate_views(out@) == distinct::at_most(
                    distinct::first_of_each(exact.take(i as int)),
                    max,
                ),
            decreases surfaces.len() - i,
        {
            proof {
                distinct::lemma_extend_step(Seq::empty(), exact, i as int);
                distinct::lemma_cut_then_push(
                    distinct::first_of_each(exact.take(i as int)),
                    exact[i as int],
                    max,
                );
            }
            push_learned(&mut out, reading, &surfaces[i]);
            i += 1;
        }
        assert(exact.take(i as int) =~= exact);
        // Entries for much longer readings are passed over: a few typed characters
        // are not to bring up whole sentences.
        let count = char_count(reading);
        let max_reading_len = if count > usize::MAX / 2 {
            usize::MAX
        } else {
            count * 2
        };
        let longer = cache.prefix_lookup(reading);
        let ghost pairs = sources::text_pairs(longer@);
        let ghost first = distinct::first_of_each(exact);
        let mut j: usize = 0;
        assert(pairs.take(0) =~= Seq::empty());
        assert(distinct::extend_new(first, Seq::empty()) == first);
        while j < longer.len()
            invariant
                j <= longer.len(),
                max == MAX_LEARNING_CANDIDATES,
                count == reading@.len(),
                max_reading_len == usize::MAX && 2 * count > usize::MAX || max_reading_len == 2
                    * count,
                pairs == sources::text_pairs(longer@),
                out.len() <= MAX_LEARNING_CANDIDATES,
                candidate::candidate_views(out@) == distinct::at_most(
                    distinct::extend_new(first, learned_ahead(pairs.take(j as int), reading@)),
                    max,
                ),
            decreases longer.len() - j,
        {
            let ghost done = learned_ahead(pairs.take(j as int), reading@);
            assert(pairs.take(j + 1).drop_last() =~= pairs.take(j as int));
            assert(pairs.take(j + 1).last() == (longer@[j as int].0@, longer@[j as int].1@));
            let full_len = char_count(longer[j].0.as_str());
            if !same_text(longer[j].0.as_str(), reading) && full_len <= max_reading_len {
                proof {
                    let new = learned_candidate(longer@[j as int].0@, longer@[j as int].1@);
                    distinct::lemma_cut_then_push(distinct::extend_new(first, done), new, max);
                    distinct::lemma_extend_push(first, done, new);
                }
                push_learned(&mut out, longer[j].0.as_str(), &longer[j].1);
            }
            j += 1;
        }
        proof {
            assert(pairs.take(j as int) =~= pairs);
            distinct::lemma_extend_concat(Seq::empty(), exact, learned_ahead(pairs, reading@));
        }
        out
    }

    /// Looks a reading up in the dictionaries for display while typing: one page.
    pub fn lookup_dict_candidates(&self, reading: &str) -> (r: Vec<Candidate>)
        ensures
            candidate::candidate_views(r@) == dict_page(self@.sources, reading@),
    {
        let hits = self.search_dictionaries(reading, DEFAULT_PAGE_SIZE);
        let ghost all = dict_page(self@.sources, reading@);
        let mut out: Vec<Candidate> = Vec::new();
        let mut i: usize = 0;
        assert(hits.len() == candidate::annotated_views(hits@).len());
        assert(candidate::candidate_views(out@) =~= all.take(0));
        while i < hits.len()
            invariant
                i <= hits.len(),
                hits.len() == all.len(),
                candidate::annotated_views(hits@) == dict_hits(
                    self@.sources,
                    reading@,
                    DEFAULT_PAGE_SIZE as nat,
                ),
                all == dict_page(self@.sources, reading@),
                candidate::candidate_views(out@) == all.take(i as int),
            decreases hits.len() - i,
        {
            let ghost before = candidate::candidate_views(out@);
            let c = Candidate {
                text: hits[i].text.clone(),
                reading: Some(reading.to_owned()),
                source_label: Some(hits[i].source.label().to_owned()),
                description: None,
            };
            assert(candidate::annotated_views(hits@)[i as int] == hits@[i as int]@);
            assert(c@ =~= all[i as int]);
            out.push(c);
            i += 1;
            assert(candidate::candidate_views(out@) =~= before.push(c@));
            assert(all.take(i as int) =~= all.take(i - 1).push(all[i - 1]));
        }
        assert(all.take(i as int) =~= all);
        out
    }

    /// The variants of the input itself, such as other brackets for a bracket, for
    /// display while typing.
    pub fn lookup_rewriter_variants(&self, reading: &str) -> (r: Vec<Candidate>)
        ensures
            candidate::candidate_views(r@) == variant_page(self@.sources, reading@),
    {
        let rules = self.converters.rewriters.rewrite(reading);
        let ghost all = variant_page(self@.sources, reading@);
        let mut out: Vec<Candidate> = Vec::new();
        let mut i: usize = 0;
        assert(rules.len() == sources::rule_views(rules@).len());
        assert(candidate::candidate_views(out@) =~= all.take(0));
        while i < rules.len()
            invariant
                i <= rules.len(),
                rules.len() == all.len(),
                sources::rule_views(rules@) == sources::rules_for(self@.sources.rules, reading@),
                all == variant_page(self@.sources, reading@),
                candidate::candidate_views(out@) == all.take(i as int),
            decreases rules.len() - i,
        {
            let ghost before = candidate::candidate_views(out@);
            let c = Candidate {
                text: rules[i].variant.clone(),
                reading: Some(reading.to_owned()),
                source_label: Some(CandidateSource::Rewriter.label().to_owned()),
                description: copy_optional(&rules[i].description),
            };
            assert(sources::rule_views(rules@)[i as int] == rules@[i as int]@);
            assert(c@ =~= all[i as int]);
            out.push(c);
            i += 1;
            assert(candidate::candidate_views(out@) =~= before.push(c@));
            assert(all.take(i as int) =~= all.take(i - 1).push(all[i - 1]));
        }
        assert(all.take(i as int) =~= all);
        out
    }
}

/// One page of what the dictionaries have for a reading.
pub open spec fn dict_page(s: SourcesView, reading: Seq<char>) -> Seq<CandidateView> {
    dict_hits(s, reading, DEFAULT_PAGE_SIZE as nat).map_values(
        |c: AnnotatedView|
            CandidateView {
                text: c.text,
                reading: Some(reading),
                source_label: Some(candidate::label_of(c.source)),
                description: None,
            },
    )
}

/// The variants of an input.
pub open spec fn variant_page(s: SourcesView, reading: Seq<char>) -> Seq<CandidateView> {
    sources::rules_for(s.rules, reading).map_values(
        |r: RuleView|
            CandidateView {
                text: r.variant,
                reading: Some(reading),
                source_label: Some(candidate::label_of(CandidateSource::Rewriter)),
                description: r.description,
            },
    )
}

/// A dictionary search gives at most as many candidates as asked for, no surface
/// twice, and all that the user dictionary has before anything of the system's.
pub proof fn law_dict_hits(s: SourcesView, reading: Seq<char>, limit: nat)
    ensures
        dict_hits(s, reading, limit).len() <= limit,
        distinct::all_distinct(dict_hits(s, reading, limit)),
        forall|i: int, j: int|
            0 <= i < j < dict_hits(s, reading, limit).len() && (#[trigger] dict_hits(
                s,
                reading,
                limit,
            )[j]).source == CandidateSource::UserDictionary ==> (#[trigger] dict_hits(
                s,
                reading,
                limit,
            )[i]).source == CandidateSource::UserDictionary,
        forall|i: int|
            0 <= i < dict_hits(s, reading, limit).len() ==> user_hits(s, reading).contains(
                #[trigger] dict_hits(s, reading, limit)[i],
            ) || system_hits(s, reading).contains(dict_hits(s, reading, limit)[i]),
{
    let user = user_hits(s, reading);
    let system = system_hits(s, reading);
    let first = distinct::first_of_each(user);
    let all = distinct::first_of_each(user + system);
    distinct::law_extend_distinct(Seq::<AnnotatedView>::empty(), user + system);
    distinct::lemma_at_most_distinct(all, limit);
    distinct::lemma_extend_concat(Seq::<AnnotatedView>::empty(), user, system);
    distinct::law_extend_keeps_list(first, system);
    assert forall|i: int| 0 <= i < first.len() implies all[i].source
        == CandidateSource::UserDictionary && user.contains(all[i]) by {
        assert(all.take(first.len() as int)[i] == first[i]);
        distinct::law_extend_members(Seq::<AnnotatedView>::empty(), user, i);
    }
    assert forall|i: int| first.len() <= i < all.len() implies all[i].source
        == CandidateSource::Dictionary && system.contains(all[i]) by {
        distinct::law_extend_adds_items(first, system, i);
    }
}

/// A smaller limit cuts a dictionary search short and changes nothing else.
pub proof fn law_dict_limit_is_prefix(s: SourcesView, reading: Seq<char>, small: nat, large: nat)
    requires
        small <= large,
    ensures
        dict_hits(s, reading, small) == distinct::at_most(dict_hits(s, reading, large), small),
{
    let all = distinct::first_of_each(user_hits(s, reading) + system_hits(s, reading));
    assert(dict_hits(s, reading, small) =~= distinct::at_most(
        distinct::at_most(all, large),
        small,
    ));
}

/// What a dictionary has for a reading.
pub open spec fn entries_of(d: Option<Seq<DictEntryView>>, reading: Seq<char>) -> Seq<
    DictCandidateView,
> {
    match d {
        Some(d) => match sources::entry_for(d, reading) {
            Some(c) => c,
            None => Seq::empty(),
        },
        None => Seq::empty(),
    }
}

/// One of the candidates has this surface.
pub open spec fn has_surface(v: Seq<DictCandidateView>, t: Seq<char>) -> bool {
    exists|i: int| 0 <= i < v.len() && (#[trigger] v[i]).surface == t
}

pub proof fn lemma_from_dict(v: Seq<DictCandidateView>, source: CandidateSource, t: Seq<char>)
    ensures
        distinct::has_key(from_dict(v, source), t) <==> has_surface(v, t),
{
    let all = from_dict(v, source);
    if has_surface(v, t) {
        let i = choose|i: int| 0 <= i < v.len() && (#[trigger] v[i]).surface == t;
        assert(all[i].key() == t);
    }
    if distinct::has_key(all, t) {
        let i = choose|i: int| 0 <= i < all.len() && (#[trigger] all[i]).key() == t;
        assert(v[i].surface == t);
    }
}

proof fn lemma_by_score_surfaces(v: Seq<DictCandidateView>, t: Seq<char>)
    ensures
        has_surface(sources::by_score(v), t) <==> has_surface(v, t),
{
    let sorted = sources::by_score(v);
    sources::law_by_score(v, 0);
    if has_surface(v, t) {
        let i = choose|i: int| 0 <= i < v.len() && (#[trigger] v[i]).surface == t;
        vstd::seq_lib::to_multiset_contains(v, v[i]);
        vstd::seq_lib::to_multiset_contains(sorted, v[i]);
        assert(v.contains(v[i]));
        assert(sorted.contains(v[i]));
        let j = choose|j: int| 0 <= j < sorted.len() && sorted[j] == v[i];
        assert(sorted[j].surface == t);
    }
    if has_surface(sorted, t) {
        let i = choose|i: int| 0 <= i < sorted.len() && (#[trigger] sorted[i]).surface == t;
        vstd::seq_lib::to_multiset_contains(v, sorted[i]);
        vstd::seq_lib::to_multiset_contains(sorted, sorted[i]);
        assert(sorted.contains(sorted[i]));
        assert(v.contains(sorted[i]));
        let j = choose|j: int| 0 <= j < v.len() && v[j] == sorted[i];
        assert(v[j].surface == t);
    }
}

/// With a limit that leaves room for all of them, as `usize::MAX` does where their
/// number fits into a `usize`, a search finds exactly the surfaces that the two
/// dictionaries have for the reading.
pub proof fn law_dict_hits_are_all_surfaces(
    s: SourcesView,
    reading: Seq<char>,
    limit: nat,
    t: Seq<char>,
)
    requires
        entries_of(s.user, reading).len() + entries_of(s.system, reading).len() <= limit,
    ensures
        distinct::has_key(dict_hits(s, reading, limit), t) <==> has_surface(
            entries_of(s.user, reading),
            t,
        ) || has_surface(entries_of(s.system, reading), t),
{
    let none = Seq::<AnnotatedView>::empty();
    let user = user_hits(s, reading);
    let system = system_hits(s, reading);
    let users = entries_of(s.user, reading);
    let systems = entries_of(s.system, reading);
    sources::law_by_score(systems, 0);
    assert(user =~= from_dict(users, CandidateSource::UserDictionary));
    assert(system =~= from_dict(sources::by_score(systems), CandidateSource::Dictionary)) by {
        assert(sources::by_score(Seq::<DictCandidateView>::empty()) =~= Seq::empty());
    }
    distinct::law_extend_keeps_list(none, user + system);
    distinct::lemma_extend_concat(none, user, system);
    distinct::law_extend_keys(none, user, t);
    distinct::law_extend_keys(distinct::first_of_each(user), system, t);
    lemma_from_dict(users, CandidateSource::UserDictionary, t);
    lemma_from_dict(sources::by_score(systems), CandidateSource::Dictionary, t);
    lemma_by_score_surfaces(systems, t);
}

proof fn lemma_learned_for(entries: Seq<(Seq<char>, Seq<char>)>, reading: Seq<char>, i: int)
    requires
        0 <= i < sources::learned_for(entries, reading).len(),
    ensures
        entries.contains((reading, sources::learned_for(entries, reading)[i])),
    decreases entries.len(),
{
    let shorter = sources::learned_for(entries.drop_last(), reading);
    if i < shorter.len() {
        lemma_learned_for(entries.drop_last(), reading, i);
        let e = (reading, shorter[i]);
        let j = choose|j: int| 0 <= j < entries.drop_last().len() && entries.drop_last()[j] == e;
        assert(entries[j] == e);
    } else {
        assert(entries[entries.len() - 1] == entries.last());
    }
}

proof fn lemma_learned_under(entries: Seq<(Seq<char>, Seq<char>)>, prefix: Seq<char>, i: int)
    requires
        0 <= i < sources::learned_under(entries, prefix).len(),
    ensures
        entries.contains(sources::learned_under(entries, prefix)[i]),
        text::starts_with(sources::learned_under(entries, prefix)[i].0, prefix),
    decreases entries.len(),
{
    let shorter = sources::learned_under(entries.drop_last(), prefix);
    if i < shorter.len() {
        lemma_learned_under(entries.drop_last(), prefix, i);
        let e = shorter[i];
        let j = choose|j: int| 0 <= j < entries.drop_last().len() && entries.drop_last()[j] == e;
        assert(entries[j] == e);
    } else {
        assert(entries[entries.len() - 1] == entries.last());
    }
}

proof fn lemma_learned_ahead(entries: Seq<(Seq<char>, Seq<char>)>, reading: Seq<char>, i: int)
    requires
        0 <= i < learned_ahead(entries, reading).len(),
    ensures
        ({
            let c = learned_ahead(entries, reading)[i];
            &&& c.reading is Some
            &&& c.reading->0 != reading
            &&& c.reading->0.len() <= 2 * reading.len()
            &&& entries.contains((c.reading->0, c.text))
        }),
    decreases entries.len(),
{
    let shorter = learned_ahead(entries.drop_last(), reading);
    if i < shorter.len() {
        lemma_learned_ahead(entries.drop_last(), reading, i);
        let e = (shorter[i].reading->0, shorter[i].text);
        let j = choose|j: int| 0 <= j < entries.drop_last().len() && entries.drop_last()[j] == e;
        assert(entries[j] == e);
    } else {
        assert(entries[entries.len() - 1] == entries.last());
    }
}

/// What holds of a candidate that the learning cache offers for a reading.
pub open spec fn is_learned_offer(
    entries: Seq<(Seq<char>, Seq<char>)>,
    reading: Seq<char>,
    c: CandidateView,
) -> bool {
    &&& c.reading is Some
    &&& text::starts_with(c.reading->0, reading)
    &&& c.reading->0.len() <= 2 * reading.len()
    &&& entries.contains((c.reading->0, c.text))
}

/// The learning cache offers only a few candidates and no text twice. Each was chosen
/// before, for this reading or for one that starts with it and is not more than twice
/// as long. Those for exactly this reading come first.
pub proof fn law_learning_hits(entries: Seq<(Seq<char>, Seq<char>)>, reading: Seq<char>)
    ensures
        learning_hits(Some(entries), reading).len() <= MAX_LEARNING_CANDIDATES,
        distinct::all_distinct(learning_hits(Some(entries), reading)),
        forall|i: int|
            0 <= i < learning_hits(Some(entries), reading).len() ==> is_learned_offer(
                entries,
                reading,
                #[trigger] learning_hits(Some(entries), reading)[i],
            ),
        forall|i: int, j: int|
            0 <= i < j < learning_hits(Some(entries), reading).len() && (#[trigger] learning_hits(
                Some(entries),
                reading,
            )[j]).reading == Some(reading) ==> (#[trigger] learning_hits(
                Some(entries),
                reading,
            )[i]).reading == Some(reading),
{
    let surfaces = sources::learned_for(entries, reading);
    let under = sources::learned_under(entries, reading);
    let exact = learned_exactly(surfaces, reading);
    let ahead = learned_ahead(under, reading);
    let first = distinct::first_of_each(exact);
    let all = distinct::first_of_each(exact + ahead);
    distinct::law_extend_distinct(Seq::<CandidateView>::empty(), exact + ahead);
    distinct::lemma_at_most_distinct(all, MAX_LEARNING_CANDIDATES as nat);
    distinct::lemma_extend_concat(Seq::<CandidateView>::empty(), exact, ahead);
    distinct::law_extend_keeps_list(first, ahead);
    assert forall|i: int| 0 <= i < first.len() implies all[i].reading == Some(reading)
        && is_learned_offer(entries, reading, all[i]) by {
        assert(all.take(first.len() as int)[i] == first[i]);
        distinct::law_extend_adds_items(Seq::<CandidateView>::empty(), exact, i);
        let j = choose|j: int| 0 <= j < exact.len() && exact[j] == all[i];
        lemma_learned_for(entries, reading, j);
        assert(reading.take(reading.len() as int) =~= reading);
    }
    assert forall|i: int| first.len() <= i < all.len() implies all[i].reading != Some(reading)
        && is_learned_offer(entries, reading, all[i]) by {
        distinct::law_extend_adds_items(first, ahead, i);
        let j = choose|j: int| 0 <= j < ahead.len() && ahead[j] == all[i];
        lemma_learned_ahead(under, reading, j);
        let e = (all[i].reading->0, all[i].text);
        let k = choose|k: int| 0 <= k < under.len() && under[k] == e;
        lemma_learned_under(entries, reading, k);
    }
}

/// The choice that was recorded last is offered first.
pub proof fn law_last_choice_offered_first(
    entries: Seq<(Seq<char>, Seq<char>)>,
    reading: Seq<char>,
    surface: Seq<char>,
)
    ensures
        learning_hits(Some(sources::learned(entries, reading, surface)), reading).len() > 0,
        learning_hits(Some(sources::learned(entries, reading, surface)), reading)[0]
            == learned_candidate(reading, surface),
{
    let after = sources::learned(entries, reading, surface);
    sources::law_recorded_comes_first(entries, reading, surface);
    let exact = learned_exactly(sources::learned_for(after, reading), reading);
    let ahead = learned_ahead(sources::learned_under(after, reading), reading);
    let items = exact + ahead;
    let none = Seq::<CandidateView>::empty();
    assert(items =~= seq![items[0]] + items.skip(1));
    distinct::lemma_extend_concat(none, seq![items[0]], items.skip(1));
    distinct::lemma_extend_one(none, items[0]);
    let one = none.push(items[0]);
    distinct::law_extend_keeps_list(one, items.skip(1));
    assert(distinct::first_of_each(items).take(1)[0] == one[0]);
}

} // verus!
