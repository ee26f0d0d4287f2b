//! What is offered for readings in which slips have been repaired, said over the learning
//! cache, the dictionaries and the answers of the models themselves.
use super::candidate::{AnnotatedView, CandidateSource};
use super::collect;
use super::fuzzy;
use super::input_method::{EngineView, ModelRunView, SourcesView};
use super::lookup;
use super::model;
use super::offers;
use super::sources;
use super::sources::{ModelView, RequestView};
use crate::distinct;
use crate::distinct::Keyed;
use crate::romaji::fuzzy::HypothesisView;
use crate::text;
use vstd::prelude::*;

verus! {

/// The learning cache holds this text for the reading.
pub open spec fn learned(e: EngineView, reading: Seq<char>, t: Seq<char>) -> bool {
    e.learning is Some && e.learning->0.contains((reading, t))
}

/// A dictionary has something for the reading.
pub open spec fn in_dictionary(s: SourcesView, reading: Seq<char>) -> bool {
    lookup::entries_of(s.user, reading).len() > 0 || lookup::entries_of(s.system, reading).len() > 0
}

proof fn lemma_learned_hits(e: EngineView, reading: Seq<char>, t: Seq<char>)
    ensures
        distinct::has_key(fuzzy::learned_hits(e.learning, reading), t) <==> learned(e, reading, t),
{
    if e.learning is Some {
        let entries = e.learning->0;
        let f = sources::for_reading(reading);
        let found = entries.filter(f);
        let hits = fuzzy::learned_hits(e.learning, reading);
        sources::law_lookup(entries, reading);
        if learned(e, reading, t) {
            offers::lemma_filter_has(entries, f, (reading, t));
            let i = choose|i: int| 0 <= i < found.len() && found[i] == (reading, t);
            assert(hits[i].key() == t);
        }
        if distinct::has_key(hits, t) {
            let i = choose|i: int| 0 <= i < hits.len() && (#[trigger] hits[i]).key() == t;
            offers::lemma_filter_sound(entries, f, i);
            assert(found[i] == (reading, t));
        }
    }
}

proof fn lemma_hits_keys(e: EngineView, reading: Seq<char>, t: Seq<char>)
    ensures
        distinct::has_key(fuzzy::hits_for(e.sources, e.learning, reading), t) <==> learned(
            e,
            reading,
            t,
        ) || distinct::has_key(lookup::dict_hits(e.sources, reading, 5), t),
{
    let a = fuzzy::learned_hits(e.learning, reading);
    let b = fuzzy::dict_hits_for(e.sources, reading);
    let dict = lookup::dict_hits(e.sources, reading, 5);
    let all = fuzzy::hits_for(e.sources, e.learning, reading);
    lemma_learned_hits(e, reading, t);
    if distinct::has_key(all, t) {
        let i = choose|i: int| 0 <= i < all.len() && (#[trigger] all[i]).key() == t;
        if i < a.len() {
            assert(a[i].key() == t);
        } else {
            assert(b[i - a.len()].key() == t);
            assert(dict[i - a.len()].key() == t);
        }
    }
    if distinct::has_key(a, t) {
        let i = choose|i: int| 0 <= i < a.len() && (#[trigger] a[i]).key() == t;
        assert(all[i].key() == t);
    }
    if distinct::has_key(dict, t) {
        let i = choose|i: int| 0 <= i < dict.len() && (#[trigger] dict[i]).key() == t;
        assert(all[a.len() + i].key() == t);
    }
}

/// Where the hits of a hypothesis begin.
spec fn offset(e: EngineView, hyps: Seq<HypothesisView>, a: int) -> int {
    fuzzy::all_hits(e.sources, e.learning, hyps.take(a)).len() as int
}

proof fn lemma_hits_at(e: EngineView, hyps: Seq<HypothesisView>, a: int)
    requires
        0 <= a < hyps.len(),
    ensures
        ({
            let all = fuzzy::all_hits(e.sources, e.learning, hyps);
            let own = fuzzy::hits_for(e.sources, e.learning, hyps[a].reading);
            &&& offset(e, hyps, a) + own.len() == offset(e, hyps, a + 1) <= all.len()
            &&& all.subrange(offset(e, hyps, a), offset(e, hyps, a + 1)) == own
        }),
    decreases hyps.len(),
{
    let all = fuzzy::all_hits(e.sources, e.learning, hyps);
    let own = fuzzy::hits_for(e.sources, e.learning, hyps[a].reading);
    let shorter = hyps.drop_last();
    let before = fuzzy::all_hits(e.sources, e.learning, shorter);
    assert(hyps.take(a + 1).drop_last() =~= hyps.take(a));
    if a == hyps.len() - 1 {
        assert(hyps.take(a + 1) =~= hyps);
        assert(hyps.take(a) =~= shorter);
        assert(all.subrange(offset(e, hyps, a), offset(e, hyps, a + 1)) =~= own);
    } else {
        lemma_hits_at(e, shorter, a);
        assert(shorter.take(a) =~= hyps.take(a));
        assert(shorter.take(a + 1) =~= hyps.take(a + 1));
        assert(all.subrange(offset(e, hyps, a), offset(e, hyps, a + 1)) =~= before.subrange(
            offset(e, hyps, a),
            offset(e, hyps, a + 1),
        ));
    }
}

/// Which hypothesis a hit belongs to.
proof fn lemma_hit_of(e: EngineView, hyps: Seq<HypothesisView>, p: int) -> (a: int)
    requires
        0 <= p < fuzzy::all_hits(e.sources, e.learning, hyps).len(),
    ensures
        0 <= a < hyps.len(),
        offset(e, hyps, a) <= p < offset(e, hyps, a + 1),
        fuzzy::all_hits(e.sources, e.learning, hyps)[p] == fuzzy::hits_for(
            e.sources,
            e.learning,
            hyps[a].reading,
        )[p - offset(e, hyps, a)],
    decreases hyps.len(),
{
    let all = fuzzy::all_hits(e.sources, e.learning, hyps);
    let shorter = hyps.drop_last();
    let before = fuzzy::all_hits(e.sources, e.learning, shorter);
    let n = hyps.len() - 1;
    assert(hyps.take(n) =~= shorter);
    assert(hyps.take(n + 1) =~= hyps);
    if p < before.len() {
        let a = lemma_hit_of(e, shorter, p);
        assert(shorter.take(a) =~= hyps.take(a));
        assert(shorter.take(a + 1) =~= hyps.take(a + 1));
        a
    } else {
        n
    }
}

proof fn lemma_offsets(e: EngineView, hyps: Seq<HypothesisView>, a: int, b: int)
    requires
        0 <= a <= b <= hyps.len(),
    ensures
        offset(e, hyps, a) <= offset(e, hyps, b),
    decreases b - a,
{
    if a < b {
        lemma_offsets(e, hyps, a, b - 1);
        lemma_hits_at(e, hyps, b - 1);
    }
}

proof fn lemma_all_keys(e: EngineView, hyps: Seq<HypothesisView>, a: int, t: Seq<char>)
    requires
        0 <= a < hyps.len(),
        distinct::has_key(fuzzy::hits_for(e.sources, e.learning, hyps[a].reading), t),
    ensures
        distinct::has_key(fuzzy::found_for(e, hyps), t),
{
    let own = fuzzy::hits_for(e.sources, e.learning, hyps[a].reading);
    let all = fuzzy::all_hits(e.sources, e.learning, hyps);
    lemma_hits_at(e, hyps, a);
    let i = choose|i: int| 0 <= i < own.len() && (#[trigger] own[i]).key() == t;
    let o = offset(e, hyps, a);
    assert(all.subrange(o, offset(e, hyps, a + 1))[i] == own[i]);
    assert(all[o + i].key() == t);
    distinct::law_extend_keys(Seq::<AnnotatedView>::empty(), all, t);
}

/// The list starts with these.
spec fn starts(list: Seq<AnnotatedView>, front: Seq<AnnotatedView>) -> bool {
    front.len() <= list.len() && list.take(front.len() as int) == front
}

proof fn lemma_starts(a: Seq<AnnotatedView>, b: Seq<AnnotatedView>, c: Seq<AnnotatedView>)
    requires
        starts(a, b),
        starts(b, c),
    ensures
        starts(a, c),
{
    assert(a.take(c.len() as int) =~= a.take(b.len() as int).take(c.len() as int));
}

proof fn lemma_starts_keys(a: Seq<AnnotatedView>, b: Seq<AnnotatedView>, t: Seq<char>)
    requires
        starts(a, b),
        distinct::has_key(b, t),
    ensures
        distinct::has_key(a, t),
{
    let i = choose|i: int| 0 <= i < b.len() && (#[trigger] b[i]).key() == t;
    assert(a.take(b.len() as int)[i] == a[i]);
    assert(a[i].key() == t);
}

proof fn lemma_models_add(
    s: SourcesView,
    m: ModelRunView,
    list: Seq<AnnotatedView>,
    readings: Seq<Seq<char>>,
)
    ensures
        starts(fuzzy::with_models(s, m, list, readings), list),
        forall|i: int|
            list.len() <= i < fuzzy::with_models(s, m, list, readings).len() ==> (
            #[trigger] fuzzy::with_models(s, m, list, readings)[i]).source
                == CandidateSource::Model,
    decreases readings.len(),
{
    let all = fuzzy::with_models(s, m, list, readings);
    if readings.len() == 0 {
        assert(list.take(list.len() as int) =~= list);
    } else {
        let shorter = readings.drop_last();
        lemma_models_add(s, m, list, shorter);
        let before = fuzzy::with_models(s, m, list, shorter);
        let hits = fuzzy::model_hits(s, fuzzy::after_readings(s, m, shorter), readings.last());
        distinct::law_extend_keeps_list(before, hits);
        lemma_starts(all, before, list);
        assert forall|i: int| list.len() <= i < all.len() implies (#[trigger] all[i]).source
            == CandidateSource::Model by {
            if i < before.len() {
                assert(all.take(before.len() as int)[i] == before[i]);
            } else {
                distinct::law_extend_adds_items(before, hits, i);
                let k = choose|k: int| 0 <= k < hits.len() && hits[k] == all[i];
                assert(hits[k].source == CandidateSource::Model);
            }
        }
    }
}

proof fn lemma_kana_add(list: Seq<AnnotatedView>, hyps: Seq<HypothesisView>)
    ensures
        starts(fuzzy::with_kana(list, hyps), list),
        forall|i: int|
            list.len() <= i < fuzzy::with_kana(list, hyps).len() ==> (
            #[trigger] fuzzy::with_kana(list, hyps)[i]).source == CandidateSource::Fallback,
    decreases hyps.len(),
{
    let all = fuzzy::with_kana(list, hyps);
    if hyps.len() == 0 {
        assert(list.take(list.len() as int) =~= list);
    } else {
        let shorter = hyps.drop_last();
        lemma_kana_add(list, shorter);
        let before = fuzzy::with_kana(list, shorter);
        assert(all.take(before.len() as int) =~= before);
        lemma_starts(all, before, list);
        assert forall|i: int| list.len() <= i < all.len() implies (#[trigger] all[i]).source
            == CandidateSource::Fallback by {
            if i < before.len() {
                assert(all[i] == before[i]);
            }
        }
    }
}

proof fn lemma_repairs_start(e: EngineView)
    ensures
        starts(fuzzy::fuzzy_repairs(e), fuzzy::found_for(e, fuzzy::typed_hypotheses(e))),
        forall|i: int|
            fuzzy::found_for(e, fuzzy::typed_hypotheses(e)).len() <= i < fuzzy::fuzzy_repairs(
                e,
            ).len() ==> {
                let c = #[trigger] fuzzy::fuzzy_repairs(e)[i];
                c.source == CandidateSource::Model || c.source == CandidateSource::Fallback
            },
{
    let hyps = fuzzy::typed_hypotheses(e);
    let found = fuzzy::found_for(e, hyps);
    let readings = fuzzy::readings_to_convert(hyps, found);
    let mid = fuzzy::with_models(e.sources, e.model, found, readings);
    let all = fuzzy::fuzzy_repairs(e);
    lemma_models_add(e.sources, e.model, found, readings);
    lemma_kana_add(mid, hyps);
    lemma_starts(all, mid, found);
    assert forall|i: int| found.len() <= i < all.len() implies {
        let c = #[trigger] all[i];
        c.source == CandidateSource::Model || c.source == CandidateSource::Fallback
    } by {
        if i < mid.len() {
            assert(all.take(mid.len() as int)[i] == mid[i]);
        }
    }
}

proof fn lemma_kana_repairs_start(e: EngineView, normal: Seq<AnnotatedView>)
    ensures
        starts(
            fuzzy::kana_repairs(e, normal),
            fuzzy::found_for(e, fuzzy::kana_hypotheses_for(e, normal)),
        ),
        forall|i: int|
            fuzzy::found_for(e, fuzzy::kana_hypotheses_for(e, normal)).len() <= i
                < fuzzy::kana_repairs(e, normal).len() ==> (
            #[trigger] fuzzy::kana_repairs(e, normal)[i]).source == CandidateSource::Model,
{
    let hyps = fuzzy::kana_hypotheses_for(e, normal);
    let found = fuzzy::found_for(e, hyps);
    lemma_models_add(
        e.sources,
        e.model,
        found,
        fuzzy::kana_readings_to_convert(hyps, found),
    );
}

/// Whatever the learning cache holds for a repaired reading is among the candidates, and
/// so are the best surfaces of the dictionaries, up to five. The same holds for a kana
/// reading that is repaired.
pub proof fn law_known_repairs_are_offered(
    e: EngineView,
    normal: Seq<AnnotatedView>,
    h: HypothesisView,
    t: Seq<char>,
)
    requires
        learned(e, h.reading, t) || distinct::has_key(lookup::dict_hits(e.sources, h.reading, 5), t),
    ensures
        fuzzy::typed_hypotheses(e).contains(h) ==> distinct::has_key(fuzzy::fuzzy_repairs(e), t),
        fuzzy::kana_hypotheses_for(e, normal).contains(h) ==> distinct::has_key(
            fuzzy::kana_repairs(e, normal),
            t,
        ),
{
    lemma_hits_keys(e, h.reading, t);
    let typed = fuzzy::typed_hypotheses(e);
    if typed.contains(h) {
        let a = choose|a: int| 0 <= a < typed.len() && typed[a] == h;
        lemma_all_keys(e, typed, a, t);
        lemma_repairs_start(e);
        lemma_starts_keys(fuzzy::fuzzy_repairs(e), fuzzy::found_for(e, typed), t);
    }
    let kana = fuzzy::kana_hypotheses_for(e, normal);
    if kana.contains(h) {
        let a = choose|a: int| 0 <= a < kana.len() && kana[a] == h;
        lemma_all_keys(e, kana, a, t);
        lemma_kana_repairs_start(e, normal);
        lemma_starts_keys(fuzzy::kana_repairs(e, normal), fuzzy::found_for(e, kana), t);
    }
}

/// Something is known of the reading: the learning cache or a dictionary has it.
pub open spec fn known(e: EngineView, reading: Seq<char>) -> bool {
    in_dictionary(e.sources, reading) || exists|t: Seq<char>| #[trigger] learned(e, reading, t)
}

/// What the learning cache has for this reading stands at the front of the list, with the
/// reading and as learned.
pub open spec fn learned_lead(list: Seq<AnnotatedView>, e: EngineView, reading: Seq<char>) -> bool {
    forall|j: int|
        0 <= j < list.len() && learned(e, reading, (#[trigger] list[j]).text) ==> {
            &&& list[j].source == CandidateSource::Learning
            &&& list[j].reading == Some(reading)
            &&& forall|i: int| 0 <= i < j ==> learned(e, reading, (#[trigger] list[i]).text)
        }
}

proof fn lemma_nothing_known(e: EngineView, reading: Seq<char>)
    requires
        !known(e, reading),
    ensures
        fuzzy::hits_for(e.sources, e.learning, reading).len() == 0,
{
    let all = fuzzy::hits_for(e.sources, e.learning, reading);
    if all.len() > 0 {
        let t = all[0].key();
        assert(distinct::has_key(all, t));
        lemma_hits_keys(e, reading, t);
        let dict = lookup::dict_hits(e.sources, reading, 5);
        assert(distinct::has_key(dict, t));
        let i = choose|i: int| 0 <= i < dict.len() && (#[trigger] dict[i]).key() == t;
        offers::law_dict_order(e.sources, reading, 5);
        assert(dict[i].text == t);
    }
}

proof fn lemma_lead(e: EngineView, hyps: Seq<HypothesisView>, a: int)
    requires
        0 <= a < hyps.len(),
        forall|b: int| 0 <= b < a ==> !known(e, (#[trigger] hyps[b]).reading),
    ensures
        learned_lead(fuzzy::found_for(e, hyps), e, hyps[a].reading),
{
    let r = hyps[a].reading;
    let none = Seq::<AnnotatedView>::empty();
    let all = fuzzy::all_hits(e.sources, e.learning, hyps);
    let own = fuzzy::hits_for(e.sources, e.learning, r);
    let first = fuzzy::learned_hits(e.learning, r);
    let found = fuzzy::found_for(e, hyps);
    lemma_hits_at(e, hyps, a);
    lemma_offset_zero(e, hyps, a);
    distinct::law_extend_order(none, all);
    assert forall|j: int| 0 <= j < found.len() && learned(e, r, (#[trigger] found[j]).text) implies {
        &&& found[j].source == CandidateSource::Learning
        &&& found[j].reading == Some(r)
        &&& forall|i: int| 0 <= i < j ==> learned(e, r, (#[trigger] found[i]).text)
    } by {
        let t = found[j].text;
        assert(found[j].key() == t);
        lemma_learned_hits(e, r, t);
        distinct::law_first_place(first, t);
        distinct::law_first_place(all, t);
        let p = distinct::first_place(first, t);
        assert(all.subrange(0, own.len() as int)[p] == own[p]);
        assert(all[p] == first[p]);
        assert(all[p].key() == t);
        let q = distinct::first_place(all, t);
        assert(q <= p);
        assert(all.subrange(0, own.len() as int)[q] == own[q]);
        assert(all[q] == first[q]);
        assert forall|i: int| 0 <= i < j implies learned(e, r, (#[trigger] found[i]).text) by {
            assert(found[i].key() == found[i].text);
            let k = distinct::first_place(all, found[i].text);
            assert(all.subrange(0, own.len() as int)[k] == own[k]);
            assert(all[k] == first[k]);
            assert(first[k].key() == found[i].text);
            lemma_learned_hits(e, r, found[i].text);
        }
    }
}

proof fn lemma_offset_zero(e: EngineView, hyps: Seq<HypothesisView>, a: int)
    requires
        0 <= a <= hyps.len(),
        forall|b: int| 0 <= b < a ==> !known(e, (#[trigger] hyps[b]).reading),
    ensures
        offset(e, hyps, a) == 0,
    decreases a,
{
    if a > 0 {
        lemma_offset_zero(e, hyps, a - 1);
        lemma_hits_at(e, hyps, a - 1);
        lemma_nothing_known(e, hyps[a - 1].reading);
    } else {
        assert(hyps.take(0) =~= Seq::empty());
    }
}

proof fn lemma_lead_kept(
    list: Seq<AnnotatedView>,
    front: Seq<AnnotatedView>,
    e: EngineView,
    reading: Seq<char>,
)
    requires
        starts(list, front),
        distinct::all_distinct(list),
        learned_lead(front, e, reading),
        forall|t: Seq<char>| #[trigger] learned(e, reading, t) ==> distinct::has_key(front, t),
    ensures
        learned_lead(list, e, reading),
{
    assert forall|j: int| 0 <= j < list.len() && learned(
        e,
        reading,
        (#[trigger] list[j]).text,
    ) implies {
        &&& list[j].source == CandidateSource::Learning
        &&& list[j].reading == Some(reading)
        &&& forall|i: int| 0 <= i < j ==> learned(e, reading, (#[trigger] list[i]).text)
    } by {
        let t = list[j].text;
        assert(distinct::has_key(front, t));
        let k = choose|k: int| 0 <= k < front.len() && (#[trigger] front[k]).key() == t;
        assert(list.take(front.len() as int)[k] == list[k]);
        assert(list[k].key() == t);
        assert(list[j].key() == t);
        assert(k == j);
        assert(front[j] == list[j]);
        assert forall|i: int| 0 <= i < j implies learned(
            e,
            reading,
            (#[trigger] list[i]).text,
        ) by {
            assert(list.take(front.len() as int)[i] == front[i]);
            assert(learned(e, reading, front[i].text));
        }
    }
}

/// What the learning cache holds for the first repaired reading that anything is known
/// of leads the list: it comes from the cache, it carries the repaired reading, and
/// nothing else stands before it. The same holds for a kana reading that is repaired.
pub proof fn law_first_known_repair_leads(e: EngineView, normal: Seq<AnnotatedView>, a: int)
    ensures
        0 <= a < fuzzy::typed_hypotheses(e).len() && (forall|b: int|
            0 <= b < a ==> !known(e, (#[trigger] fuzzy::typed_hypotheses(e)[b]).reading))
            ==> learned_lead(fuzzy::fuzzy_repairs(e), e, fuzzy::typed_hypotheses(e)[a].reading),
        0 <= a < fuzzy::kana_hypotheses_for(e, normal).len() && (forall|b: int|
            0 <= b < a ==> !known(e, (#[trigger] fuzzy::kana_hypotheses_for(e, normal)[b]).reading))
            ==> learned_lead(
            fuzzy::kana_repairs(e, normal),
            e,
            fuzzy::kana_hypotheses_for(e, normal)[a].reading,
        ),
{
    let typed = fuzzy::typed_hypotheses(e);
    if 0 <= a < typed.len() && (forall|b: int|
        0 <= b < a ==> !known(e, (#[trigger] typed[b]).reading)) {
        lemma_lead(e, typed, a);
        lemma_repairs_start(e);
        fuzzy::law_fuzzy_repairs(e);
        let r = typed[a].reading;
        assert forall|t: Seq<char>| #[trigger] learned(e, r, t) implies distinct::has_key(
            fuzzy::found_for(e, typed),
            t,
        ) by {
            lemma_hits_keys(e, r, t);
            lemma_all_keys(e, typed, a, t);
        }
        lemma_lead_kept(fuzzy::fuzzy_repairs(e), fuzzy::found_for(e, typed), e, r);
    }
    let kana = fuzzy::kana_hypotheses_for(e, normal);
    if 0 <= a < kana.len() && (forall|b: int|
        0 <= b < a ==> !known(e, (#[trigger] kana[b]).reading)) {
        lemma_lead(e, kana, a);
        lemma_kana_repairs_start(e, normal);
        fuzzy::law_kana_repairs(e, normal);
        let r = kana[a].reading;
        assert forall|t: Seq<char>| #[trigger] learned(e, r, t) implies distinct::has_key(
            fuzzy::found_for(e, kana),
            t,
        ) by {
            lemma_hits_keys(e, r, t);
            lemma_all_keys(e, kana, a, t);
        }
        lemma_lead_kept(fuzzy::kana_repairs(e, normal), fuzzy::found_for(e, kana), e, r);
    }
}

/// Which hypothesis a candidate is for.
pub open spec fn place_of(hyps: Seq<HypothesisView>, c: AnnotatedView) -> int {
    distinct::first_place(hyps, c.reading->0)
}

/// The candidate was found in the learning cache or in a dictionary.
pub open spec fn found_somewhere(c: AnnotatedView) -> bool {
    c.source != CandidateSource::Model && c.source != CandidateSource::Fallback && c.source
        != CandidateSource::Rewriter
}

/// What was found stands in the order of the hypotheses, for each of them the learned
/// before what a dictionary has; and it is what its hypothesis has.
pub open spec fn found_in_order(
    list: Seq<AnnotatedView>,
    e: EngineView,
    hyps: Seq<HypothesisView>,
) -> bool {
    &&& forall|i: int|
        0 <= i < list.len() && found_somewhere(#[trigger] list[i]) ==> {
            let r = list[i].reading->0;
            &&& distinct::has_key(hyps, r)
            &&& list[i].reading is Some
            &&& if list[i].source == CandidateSource::Learning {
                learned(e, r, list[i].text)
            } else {
                distinct::has_key(lookup::dict_hits(e.sources, r, 5), list[i].text)
            }
        }
    &&& forall|i: int, j: int|
        0 <= i < j < list.len() && found_somewhere(#[trigger] list[j]) ==> {
            &&& found_somewhere(#[trigger] list[i])
            &&& place_of(hyps, list[i]) <= place_of(hyps, list[j])
            &&& place_of(hyps, list[i]) == place_of(hyps, list[j]) && list[j].source
                == CandidateSource::Learning ==> list[i].source == CandidateSource::Learning
        }
}

proof fn lemma_hyp_place(hyps: Seq<HypothesisView>, a: int)
    requires
        distinct::all_distinct(hyps),
        0 <= a < hyps.len(),
    ensures
        distinct::first_place(hyps, hyps[a].reading) == a,
        distinct::has_key(hyps, hyps[a].reading),
{
    let k = hyps[a].reading;
    assert(hyps[a].key() == k);
    distinct::law_first_place(hyps, k);
}

proof fn lemma_hit_kind(e: EngineView, r: Seq<char>, p: int)
    requires
        0 <= p < fuzzy::hits_for(e.sources, e.learning, r).len(),
    ensures
        ({
            let c = fuzzy::hits_for(e.sources, e.learning, r)[p];
            &&& found_somewhere(c)
            &&& c.reading == Some(r)
            &&& if p < fuzzy::learned_hits(e.learning, r).len() {
                c.source == CandidateSource::Learning && learned(e, r, c.text)
            } else {
                c.source != CandidateSource::Learning && distinct::has_key(
                    lookup::dict_hits(e.sources, r, 5),
                    c.text,
                )
            }
        }),
{
    let a = fuzzy::learned_hits(e.learning, r);
    let dict = lookup::dict_hits(e.sources, r, 5);
    let c = fuzzy::hits_for(e.sources, e.learning, r)[p];
    if p < a.len() {
        assert(c == a[p]);
        assert(a[p].key() == c.text);
        lemma_learned_hits(e, r, c.text);
    } else {
        let d = dict[p - a.len()];
        assert(c == fuzzy::dict_hits_for(e.sources, r)[p - a.len()]);
        assert(d.key() == c.text);
        offers::law_dict_order(e.sources, r, 5);
    }
}

proof fn lemma_found_in_order(e: EngineView, hyps: Seq<HypothesisView>)
    requires
        distinct::all_distinct(hyps),
    ensures
        found_in_order(fuzzy::found_for(e, hyps), e, hyps),
        forall|i: int|
            0 <= i < fuzzy::found_for(e, hyps).len() ==> found_somewhere(
                #[trigger] fuzzy::found_for(e, hyps)[i],
            ),
{
    let none = Seq::<AnnotatedView>::empty();
    let all = fuzzy::all_hits(e.sources, e.learning, hyps);
    let found = fuzzy::found_for(e, hyps);
    distinct::law_extend_order(none, all);
    assert forall|i: int| 0 <= i < found.len() implies found_somewhere(#[trigger] found[i]) && {
        let r = found[i].reading->0;
        &&& distinct::has_key(hyps, r)
        &&& found[i].reading is Some
        &&& if found[i].source == CandidateSource::Learning {
            learned(e, r, found[i].text)
        } else {
            distinct::has_key(lookup::dict_hits(e.sources, r, 5), found[i].text)
        }
    } by {
        let p = distinct::first_place(all, found[i].key());
        let a = lemma_hit_of(e, hyps, p);
        lemma_hits_at(e, hyps, a);
        lemma_hit_kind(e, hyps[a].reading, p - offset(e, hyps, a));
        lemma_hyp_place(hyps, a);
    }
    assert forall|i: int, j: int|
        0 <= i < j < found.len() && found_somewhere(#[trigger] found[j]) implies {
        &&& found_somewhere(#[trigger] found[i])
        &&& place_of(hyps, found[i]) <= place_of(hyps, found[j])
        &&& place_of(hyps, found[i]) == place_of(hyps, found[j]) && found[j].source
            == CandidateSource::Learning ==> found[i].source == CandidateSource::Learning
    } by {
        let p = distinct::first_place(all, found[i].key());
        let q = distinct::first_place(all, found[j].key());
        assert(p < q);
        let a = lemma_hit_of(e, hyps, p);
        let b = lemma_hit_of(e, hyps, q);
        lemma_hits_at(e, hyps, a);
        lemma_hits_at(e, hyps, b);
        lemma_hit_kind(e, hyps[a].reading, p - offset(e, hyps, a));
        lemma_hit_kind(e, hyps[b].reading, q - offset(e, hyps, b));
        lemma_hyp_place(hyps, a);
        lemma_hyp_place(hyps, b);
        if b < a {
            lemma_offsets(e, hyps, b + 1, a);
        }
    }
}

proof fn lemma_order_kept(
    list: Seq<AnnotatedView>,
    front: Seq<AnnotatedView>,
    e: EngineView,
    hyps: Seq<HypothesisView>,
)
    requires
        starts(list, front),
        found_in_order(front, e, hyps),
        forall|i: int|
            front.len() <= i < list.len() ==> !found_somewhere(#[trigger] list[i]),
    ensures
        found_in_order(list, e, hyps),
{
    assert forall|i: int| 0 <= i < front.len() implies list[i] == #[trigger] front[i] by {
        assert(list.take(front.len() as int)[i] == list[i]);
    }
    assert forall|i: int| 0 <= i < list.len() && found_somewhere(#[trigger] list[i]) implies {
        let r = list[i].reading->0;
        &&& distinct::has_key(hyps, r)
        &&& list[i].reading is Some
        &&& if list[i].source == CandidateSource::Learning {
            learned(e, r, list[i].text)
        } else {
            distinct::has_key(lookup::dict_hits(e.sources, r, 5), list[i].text)
        }
    } by {
        assert(front[i] == list[i]);
    }
    assert forall|i: int, j: int|
        0 <= i < j < list.len() && found_somewhere(#[trigger] list[j]) implies {
        &&& found_somewhere(#[trigger] list[i])
        &&& place_of(hyps, list[i]) <= place_of(hyps, list[j])
        &&& place_of(hyps, list[i]) == place_of(hyps, list[j]) && list[j].source
            == CandidateSource::Learning ==> list[i].source == CandidateSource::Learning
    } by {
        assert(front[i] == list[i]);
        assert(front[j] == list[j]);
    }
}

/// What the learning cache and the dictionaries have for the repaired readings stands
/// before everything else, in the order of the readings, and for each reading the
/// learned first.
pub proof fn law_repairs_in_order(e: EngineView, normal: Seq<AnnotatedView>)
    ensures
        found_in_order(fuzzy::fuzzy_repairs(e), e, fuzzy::typed_hypotheses(e)),
        found_in_order(
            fuzzy::kana_repairs(e, normal),
            e,
            fuzzy::kana_hypotheses_for(e, normal),
        ),
{
    let typed = fuzzy::typed_hypotheses(e);
    crate::romaji::fuzzy::law_hypotheses_distinct(e.text, fuzzy::MAX_HYPOTHESES as nat);
    lemma_found_in_order(e, typed);
    lemma_repairs_start(e);
    lemma_order_kept(fuzzy::fuzzy_repairs(e), fuzzy::found_for(e, typed), e, typed);
    let kana = fuzzy::kana_hypotheses_for(e, normal);
    crate::romaji::reverse::law_kana_hypotheses(e.text, fuzzy::MAX_KANA_HYPOTHESES as nat);
    crate::romaji::fuzzy::lemma_fully_repaired(
        crate::romaji::reverse::kana_hypotheses(e.text, fuzzy::MAX_KANA_HYPOTHESES as nat),
    );
    lemma_found_in_order(e, kana);
    lemma_kana_repairs_start(e, normal);
    lemma_order_kept(fuzzy::kana_repairs(e, normal), fuzzy::found_for(e, kana), e, kana);
}

/// Something stands in the list for the hypothesis.
pub open spec fn has_found(list: Seq<AnnotatedView>) -> spec_fn(HypothesisView) -> bool {
    |h: HypothesisView|
        exists|i: int| 0 <= i < list.len() && (#[trigger] list[i]).reading == Some(h.reading)
}

/// The reading of a hypothesis.
pub open spec fn its_reading() -> spec_fn(HypothesisView) -> Seq<char> {
    |h: HypothesisView| h.reading
}

proof fn lemma_answered(hyps: Seq<HypothesisView>, list: Seq<AnnotatedView>)
    ensures
        fuzzy::answered(hyps, list) == hyps.filter(has_found(list)).map_values(its_reading()),
    decreases hyps.len(),
{
    reveal(Seq::filter);
    if hyps.len() > 0 {
        lemma_answered(hyps.drop_last(), list);
    }
    assert(fuzzy::answered(hyps, list) =~= hyps.filter(has_found(list)).map_values(its_reading()));
}

/// The first five of these hypotheses, or all of fewer.
pub open spec fn first_five(readings: Seq<Seq<char>>) -> Seq<Seq<char>> {
    if readings.len() <= 5 {
        readings
    } else {
        readings.take(5)
    }
}

/// The models are asked for the first five repaired readings that something was found
/// for; if nothing was found for any, for the first five readings, and for a kana reading
/// for none.
pub proof fn law_readings_for_the_models(
    hyps: Seq<HypothesisView>,
    found: Seq<AnnotatedView>,
)
    ensures
        found.len() == 0 ==> fuzzy::readings_to_convert(hyps, found) == first_five(
            hyps.map_values(its_reading()),
        ),
        found.len() > 0 ==> fuzzy::readings_to_convert(hyps, found) == first_five(
            hyps.filter(has_found(found)).map_values(its_reading()),
        ),
        fuzzy::kana_readings_to_convert(hyps, found) == first_five(
            hyps.filter(has_found(found)).map_values(its_reading()),
        ),
{
    lemma_answered(hyps, found);
    assert(fuzzy::readings_of(hyps) =~= hyps.map_values(its_reading()));
}

proof fn lemma_same_model(s: SourcesView, m: ModelRunView, readings: Seq<Seq<char>>)
    ensures
        m.use_light ==> fuzzy::after_readings(s, m, readings).use_light,
    decreases readings.len(),
{
    if readings.len() > 0 {
        lemma_same_model(s, m, readings.drop_last());
    }
}

proof fn lemma_model_keys(
    s: SourcesView,
    m: ModelRunView,
    list: Seq<AnnotatedView>,
    readings: Seq<Seq<char>>,
    k: int,
    t: Seq<char>,
)
    requires
        0 <= k < readings.len(),
        model::model_texts(
            s,
            fuzzy::after_readings(s, m, readings.take(k)),
            readings[k],
            model::api_context(s),
            1,
        ).contains(t),
    ensures
        distinct::has_key(fuzzy::with_models(s, m, list, readings), t),
    decreases readings.len(),
{
    let shorter = readings.drop_last();
    let before = fuzzy::with_models(s, m, list, shorter);
    let hits = fuzzy::model_hits(s, fuzzy::after_readings(s, m, shorter), readings.last());
    distinct::law_extend_keys(before, hits, t);
    if k == readings.len() - 1 {
        assert(readings.take(k) =~= shorter);
        let texts = model::model_texts(
            s,
            fuzzy::after_readings(s, m, shorter),
            readings[k],
            model::api_context(s),
            1,
        );
        let i = choose|i: int| 0 <= i < texts.len() && texts[i] == t;
        assert(hits[i].key() == t);
    } else {
        assert(shorter.take(k) =~= readings.take(k));
        lemma_model_keys(s, m, list, shorter, k, t);
    }
}

/// What the models give for a repaired reading that they are asked for is among the
/// candidates: for the first such reading, and for all of them where one model answers
/// them all.
pub proof fn law_model_repairs_are_offered(
    e: EngineView,
    normal: Seq<AnnotatedView>,
    k: int,
    t: Seq<char>,
)
    requires
        k == 0 || e.sources.light is None || e.model.use_light,
    ensures
        ({
            let hyps = fuzzy::typed_hypotheses(e);
            let readings = fuzzy::readings_to_convert(hyps, fuzzy::found_for(e, hyps));
            0 <= k < readings.len() && model::model_texts(
                e.sources,
                e.model,
                readings[k],
                model::api_context(e.sources),
                1,
            ).contains(t) ==> distinct::has_key(fuzzy::fuzzy_repairs(e), t)
        }),
        ({
            let hyps = fuzzy::kana_hypotheses_for(e, normal);
            let readings = fuzzy::kana_readings_to_convert(hyps, fuzzy::found_for(e, hyps));
            0 <= k < readings.len() && model::model_texts(
                e.sources,
                e.model,
                readings[k],
                model::api_context(e.sources),
                1,
            ).contains(t) ==> distinct::has_key(fuzzy::kana_repairs(e, normal), t)
        }),
{
    let c = model::api_context(e.sources);
    let hyps = fuzzy::typed_hypotheses(e);
    let found = fuzzy::found_for(e, hyps);
    let readings = fuzzy::readings_to_convert(hyps, found);
    if 0 <= k < readings.len() && model::model_texts(
        e.sources,
        e.model,
        readings[k],
        c,
        1,
    ).contains(t) {
        lemma_same_model(e.sources, e.model, readings.take(k));
        lemma_model_keys(e.sources, e.model, found, readings, k, t);
        let mid = fuzzy::with_models(e.sources, e.model, found, readings);
        lemma_kana_add(mid, hyps);
        lemma_starts_keys(fuzzy::fuzzy_repairs(e), mid, t);
    }
    let hyps = fuzzy::kana_hypotheses_for(e, normal);
    let found = fuzzy::found_for(e, hyps);
    let readings = fuzzy::kana_readings_to_convert(hyps, found);
    if 0 <= k < readings.len() && model::model_texts(
        e.sources,
        e.model,
        readings[k],
        c,
        1,
    ).contains(t) {
        lemma_same_model(e.sources, e.model, readings.take(k));
        lemma_model_keys(e.sources, e.model, found, readings, k, t);
    }
}

proof fn lemma_kana_pairs(list: Seq<AnnotatedView>, hyps: Seq<HypothesisView>)
    requires
        forall|i: int|
            0 <= i < list.len() ==> (#[trigger] list[i]).source != CandidateSource::Fallback,
    ensures
        forall|i: int|
            0 <= i < fuzzy::with_kana(list, hyps).len() && (
            #[trigger] fuzzy::with_kana(list, hyps)[i]).source == CandidateSource::Fallback ==> {
                let c = fuzzy::with_kana(list, hyps)[i];
                let r = c.reading->0;
                &&& c.reading is Some
                &&& distinct::has_key(hyps, r)
                &&& c.text == r || c.text == text::katakana(r)
                &&& distinct::has_key(fuzzy::with_kana(list, hyps), text::katakana(r))
            },
    decreases hyps.len(),
{
    if hyps.len() > 0 {
        let shorter = hyps.drop_last();
        lemma_kana_pairs(list, shorter);
        let before = fuzzy::with_kana(list, shorter);
        let all = fuzzy::with_kana(list, hyps);
        let r = hyps.last().reading;
        assert(hyps[hyps.len() - 1].key() == r);
        assert forall|i: int|
            0 <= i < all.len() && (#[trigger] all[i]).source == CandidateSource::Fallback implies {
            let c = all[i];
            let r = c.reading->0;
            &&& c.reading is Some
            &&& distinct::has_key(hyps, r)
            &&& c.text == r || c.text == text::katakana(r)
            &&& distinct::has_key(all, text::katakana(r))
        } by {
            if i < before.len() {
                assert(all[i] == before[i]);
                let q = all[i].reading->0;
                let x = choose|x: int| 0 <= x < shorter.len() && (#[trigger] shorter[x]).key() == q;
                assert(hyps[x].key() == q);
                let kt = text::katakana(q);
                let y = choose|y: int| 0 <= y < before.len() && (#[trigger] before[y]).key() == kt;
                assert(all[y].key() == kt);
            } else {
                let mid = before.push(AnnotatedView::reads(r, CandidateSource::Fallback, r));
                let kt = text::katakana(r);
                if distinct::has_key(mid, kt) {
                    let y = choose|y: int| 0 <= y < mid.len() && (#[trigger] mid[y]).key() == kt;
                    assert(all[y].key() == kt);
                } else {
                    assert(all[before.len() as int + 1].key() == kt);
                }
            }
        }
    }
}

/// A repaired reading that no other source has is offered in hiragana and in katakana.
pub proof fn law_repairs_as_kana(e: EngineView)
    ensures
        forall|i: int|
            0 <= i < fuzzy::fuzzy_repairs(e).len() && (#[trigger] fuzzy::fuzzy_repairs(e)[i]).source
                == CandidateSource::Fallback ==> {
                let c = fuzzy::fuzzy_repairs(e)[i];
                let r = c.reading->0;
                &&& c.reading is Some
                &&& distinct::has_key(fuzzy::typed_hypotheses(e), r)
                &&& c.text == r || c.text == text::katakana(r)
                &&& distinct::has_key(fuzzy::fuzzy_repairs(e), text::katakana(r))
            },
{
    let hyps = fuzzy::typed_hypotheses(e);
    let found = fuzzy::found_for(e, hyps);
    let readings = fuzzy::readings_to_convert(hyps, found);
    let mid = fuzzy::with_models(e.sources, e.model, found, readings);
    crate::romaji::fuzzy::law_hypotheses_distinct(e.text, fuzzy::MAX_HYPOTHESES as nat);
    lemma_found_in_order(e, hyps);
    lemma_models_add(e.sources, e.model, found, readings);
    assert forall|i: int| 0 <= i < mid.len() implies (#[trigger] mid[i]).source
        != CandidateSource::Fallback by {
        if i < found.len() {
            assert(mid.take(found.len() as int)[i] == found[i]);
        }
    }
    lemma_kana_pairs(mid, hyps);
}

/// The text has no ASCII character.
pub open spec fn without_ascii() -> spec_fn(HypothesisView) -> bool {
    |h: HypothesisView| forall|i: int| 0 <= i < h.reading.len() ==> '\u{80}' <= #[trigger] h.reading[i]
}

proof fn lemma_fully_repaired(list: Seq<HypothesisView>)
    ensures
        crate::romaji::fuzzy::fully_repaired(list) == list.filter(without_ascii()),
    decreases list.len(),
{
    reveal(Seq::filter);
    if list.len() > 0 {
        lemma_fully_repaired(list.drop_last());
    }
    assert(crate::romaji::fuzzy::fully_repaired(list) =~= list.filter(without_ascii()));
}

/// While the repair is switched on, up to a hundred repairs of stranded letters are tried,
/// and up to fifty of a reading in hiragana that means nothing.
pub proof fn law_repairs_tried(e: EngineView, normal: Seq<AnnotatedView>)
    requires
        e.sources.config.fuzzy_repair_enabled,
    ensures
        fuzzy::typed_hypotheses(e) == crate::romaji::fuzzy::hypotheses(e.text, 100),
        text::pure_hiragana(e.text) && (forall|i: int|
            0 <= i < normal.len() ==> !found_somewhere(#[trigger] normal[i]))
            ==> fuzzy::kana_hypotheses_for(e, normal) == crate::romaji::reverse::kana_hypotheses(
            e.text,
            50,
        ).filter(without_ascii()),
{
    lemma_fully_repaired(crate::romaji::reverse::kana_hypotheses(e.text, 50));
}

/// The first of the questions stay, whatever is asked after them.
pub open spec fn keeps_questions(before: ModelRunView, after: ModelRunView) -> bool {
    before.requests.len() <= after.requests.len() && after.requests.subrange(
        0,
        before.requests.len() as int,
    ) == before.requests
}

proof fn lemma_run_keeps(
    s: SourcesView,
    m: ModelRunView,
    reading: Seq<char>,
    context: Seq<char>,
    n: usize,
)
    ensures
        keeps_questions(m, model::after_run(s, m, reading, context, n)),
        model::after_run(s, m, reading, context, n).wanted == m.wanted,
        m.use_light ==> model::after_run(s, m, reading, context, n).use_light,
{
    let after = model::after_run(s, m, reading, context, n);
    assert(after.requests.subrange(0, m.requests.len() as int) =~= m.requests);
}

proof fn lemma_readings_keep(s: SourcesView, m: ModelRunView, readings: Seq<Seq<char>>, k: int)
    requires
        0 <= k <= readings.len(),
    ensures
        keeps_questions(
            fuzzy::after_readings(s, m, readings.take(k)),
            fuzzy::after_readings(s, m, readings),
        ),
        fuzzy::after_readings(s, m, readings).wanted == m.wanted,
    decreases readings.len(),
{
    let last = fuzzy::after_readings(s, m, readings);
    if k == readings.len() {
        assert(readings.take(k) =~= readings);
        assert(last.requests.subrange(0, last.requests.len() as int) =~= last.requests);
        if k > 0 {
            lemma_readings_keep(s, m, readings.drop_last(), k - 1);
            lemma_run_keeps(
                s,
                fuzzy::after_readings(s, m, readings.drop_last()),
                readings.last(),
                model::api_context(s),
                1,
            );
        }
    } else {
        let front = readings.drop_last();
        lemma_readings_keep(s, m, front, k);
        assert(front.take(k) =~= readings.take(k));
        let a = fuzzy::after_readings(s, m, readings.take(k));
        let b = fuzzy::after_readings(s, m, front);
        lemma_run_keeps(s, b, readings.last(), model::api_context(s), 1);
        assert(last.requests.subrange(0, a.requests.len() as int) =~= b.requests.subrange(
            0,
            a.requests.len() as int,
        ));
    }
}

/// The question for the best conversion of a reading.
pub open spec fn question(s: SourcesView, reading: Seq<char>, light: bool) -> RequestView {
    RequestView {
        katakana: text::katakana(reading),
        context: model::api_context(s),
        num_candidates: 1,
        light,
    }
}

/// The model that is asked for the best conversion: the main one, unless the light one has
/// taken over.
pub open spec fn model_asked(s: SourcesView, use_light: bool) -> ModelView {
    if s.light is Some && use_light {
        s.light->0
    } else {
        s.kanji->0
    }
}

proof fn lemma_question_noted(
    s: SourcesView,
    m: ModelRunView,
    readings: Seq<Seq<char>>,
    k: int,
)
    requires
        0 <= k < readings.len(),
        k == 0 || s.light is None || m.use_light,
        s.kanji is Some,
        text::has_kana(readings[k]),
        model::has_no_answer(
            model_asked(s, m.use_light),
            text::katakana(readings[k]),
            model::api_context(s),
            1,
        ),
    ensures
        fuzzy::after_readings(s, m, readings).requests.contains(
            question(s, readings[k], s.light is Some && m.use_light),
        ),
{
    let before = fuzzy::after_readings(s, m, readings.take(k));
    let after = fuzzy::after_readings(s, m, readings.take(k + 1));
    let c = model::api_context(s);
    assert(readings.take(k + 1).drop_last() =~= readings.take(k));
    assert(readings.take(k + 1).last() == readings[k]);
    lemma_same_model(s, m, readings.take(k));
    if k == 0 {
        assert(readings.take(0) =~= Seq::empty());
    }
    let x = model_asked(s, m.use_light);
    sources::law_answer_to(x.answers, text::katakana(readings[k]), c, 1);
    let q = question(s, readings[k], s.light is Some && m.use_light);
    assert(after.requests =~= before.requests.push(q));
    lemma_readings_keep(s, m, readings, k + 1);
    let last = fuzzy::after_readings(s, m, readings);
    let at = before.requests.len() as int;
    assert(last.requests.subrange(0, after.requests.len() as int)[at] == last.requests[at]);
    assert(last.requests[at] == q);
}

/// Repairing asks the models for what they have not answered yet, forgets no question that
/// was open before, and changes nothing else. The main model is wanted if it is not there
/// and there is something to convert.
pub proof fn law_repairs_ask_the_models(e: EngineView, normal: Seq<AnnotatedView>, k: int)
    ensures
        ({
            let hyps = fuzzy::typed_hypotheses(e);
            let readings = fuzzy::readings_to_convert(hyps, fuzzy::found_for(e, hyps));
            let f = fuzzy::after_fuzzy_repairs(e);
            &&& f == EngineView { model: f.model, ..e }
            &&& keeps_questions(e.model, f.model)
            &&& f.model.wanted <==> e.model.wanted || (hyps.len() > 0 && e.sources.kanji is None)
            &&& 0 <= k < readings.len() && unanswered(e, readings[k], k)
                ==> f.model.requests.contains(
                question(e.sources, readings[k], e.sources.light is Some && e.model.use_light),
            )
        }),
        ({
            let hyps = fuzzy::kana_hypotheses_for(e, normal);
            let found = fuzzy::found_for(e, hyps);
            let readings = fuzzy::kana_readings_to_convert(hyps, found);
            let f = fuzzy::after_kana_repairs(e, normal);
            &&& f == EngineView { model: f.model, ..e }
            &&& keeps_questions(e.model, f.model)
            &&& f.model.wanted <==> e.model.wanted || (found.len() > 0 && e.sources.kanji is None)
            &&& 0 <= k < readings.len() && unanswered(e, readings[k], k)
                ==> f.model.requests.contains(
                question(e.sources, readings[k], e.sources.light is Some && e.model.use_light),
            )
        }),
{
    let s = e.sources;
    let m = e.model;
    let hyps = fuzzy::typed_hypotheses(e);
    let readings = fuzzy::readings_to_convert(hyps, fuzzy::found_for(e, hyps));
    lemma_readings_keep(s, m, readings, 0);
    assert(readings.take(0) =~= Seq::empty());
    if 0 <= k < readings.len() && unanswered(e, readings[k], k) {
        lemma_question_noted(s, m, readings, k);
    }
    let hyps = fuzzy::kana_hypotheses_for(e, normal);
    let readings = fuzzy::kana_readings_to_convert(hyps, fuzzy::found_for(e, hyps));
    lemma_readings_keep(s, m, readings, 0);
    assert(readings.take(0) =~= Seq::empty());
    if 0 <= k < readings.len() && unanswered(e, readings[k], k) {
        lemma_question_noted(s, m, readings, k);
    }
}

/// The model that is asked has no answer for the best conversion of this reading, and it
/// is the first that is asked for or one model answers them all.
pub open spec fn unanswered(e: EngineView, reading: Seq<char>, k: int) -> bool {
    &&& k == 0 || e.sources.light is None || e.model.use_light
    &&& e.sources.kanji is Some
    &&& text::has_kana(reading)
    &&& model::has_no_answer(
        model_asked(e.sources, e.model.use_light),
        text::katakana(reading),
        model::api_context(e.sources),
        1,
    )
}

/// Building the candidates of a reading asks the models, forgets no open question, and
/// changes nothing else; the main model is wanted if it is not there.
pub proof fn law_conversion_asks_the_models(e: EngineView, reading: Seq<char>, n: usize)
    ensures
        ({
            let f = collect::asked(e, reading, n);
            let after = model::after_run(
                e.sources,
                e.model,
                reading,
                model::api_context(e.sources),
                n,
            );
            &&& f == EngineView { model: f.model, ..e }
            &&& keeps_questions(e.model, f.model)
            &&& f.model == (ModelRunView { wanted: f.model.wanted, ..after })
            &&& f.model.wanted <==> e.model.wanted || e.sources.kanji is None
        }),
{
    lemma_run_keeps(e.sources, e.model, reading, model::api_context(e.sources), n);
}

/// A kana reading for which the learning cache or a dictionary offers anything is left as
/// it is, and so is one that holds anything but hiragana; no repair is tried, and no model
/// is asked.
pub proof fn law_known_reading_is_not_repaired(e: EngineView, normal: Seq<AnnotatedView>, i: int)
    requires
        (0 <= i < normal.len() && found_somewhere(normal[i])) || (0 <= i < e.text.len() && !('ぁ'
            <= e.text[i] && e.text[i] <= 'ゟ')) || e.text.len() == 0
            || !e.sources.config.fuzzy_repair_enabled,
    ensures
        fuzzy::kana_hypotheses_for(e, normal).len() == 0,
        fuzzy::kana_repairs(e, normal).len() == 0,
        fuzzy::after_kana_repairs(e, normal) == e,
{
    if 0 <= i < normal.len() && found_somewhere(normal[i]) {
        assert(fuzzy::is_meaningful(normal[i].source));
    } else if 0 <= i < e.text.len() && !('ぁ' <= e.text[i] && e.text[i] <= 'ゟ') {
        assert(!text::is_hiragana(e.text[i]));
    }
    fuzzy::law_meaningful_is_not_repaired(e, normal);
}

} // verus!
