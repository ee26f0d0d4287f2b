//! What is offered for a reading, said over the dictionaries, the learning cache, the
//! table of variants and the answers of the models themselves.
use super::candidate;
use super::candidate::{AnnotatedView, CandidateSource, CandidateView};
use super::collect;
use super::input_method::{EngineView, SourcesView};
use super::lookup;
use super::model;
use super::sources;
use super::sources::{DictCandidateView, RuleView};
use super::state::InputMode;
use crate::distinct;
use crate::distinct::Keyed;
use crate::text;
use vstd::prelude::*;

verus! {

/// An entry of the learning cache that is of use for a reading: it is for this reading,
/// or for one that starts with it and is at most twice as long.
pub open spec fn of_use(e: (Seq<char>, Seq<char>), reading: Seq<char>) -> bool {
    &&& e.0.len() >= reading.len()
    &&& e.0.subrange(0, reading.len() as int) == reading
    &&& e.0.len() <= 2 * reading.len()
}

/// An entry of the cache is for a longer reading and of use.
pub open spec fn longer_of_use(reading: Seq<char>) -> spec_fn((Seq<char>, Seq<char>)) -> bool {
    |e: (Seq<char>, Seq<char>)| e.0 != reading && of_use(e, reading)
}

/// An entry of the cache as a candidate.
pub open spec fn as_candidate() -> spec_fn((Seq<char>, Seq<char>)) -> CandidateView {
    |e: (Seq<char>, Seq<char>)| lookup::learned_candidate(e.0, e.1)
}

/// What the learning cache could offer: the choices for exactly this reading and then
/// those for longer ones, both in the order of the cache.
pub open spec fn learned_in_order(
    entries: Seq<(Seq<char>, Seq<char>)>,
    reading: Seq<char>,
) -> Seq<CandidateView> {
    entries.filter(sources::for_reading(reading)).map_values(as_candidate()) + entries.filter(
        longer_of_use(reading),
    ).map_values(as_candidate())
}

proof fn lemma_ahead_filter(entries: Seq<(Seq<char>, Seq<char>)>, reading: Seq<char>)
    ensures
        lookup::learned_ahead(sources::learned_under(entries, reading), reading) == entries.filter(
            longer_of_use(reading),
        ).map_values(as_candidate()),
    decreases entries.len(),
{
    reveal(Seq::filter);
    let under = sources::learned_under(entries, reading);
    if entries.len() > 0 {
        let front = entries.drop_last();
        lemma_ahead_filter(front, reading);
        let full = entries.last().0;
        if full.len() >= reading.len() {
            assert(full.take(reading.len() as int) =~= full.subrange(0, reading.len() as int));
        }
        if text::starts_with(full, reading) {
            assert(under.drop_last() =~= sources::learned_under(front, reading));
            assert(under.last() == entries.last());
        }
    }
    assert(lookup::learned_ahead(under, reading) =~= entries.filter(
        longer_of_use(reading),
    ).map_values(as_candidate()));
}

proof fn lemma_learned_items(entries: Seq<(Seq<char>, Seq<char>)>, reading: Seq<char>)
    ensures
        lookup::learned_exactly(sources::learned_for(entries, reading), reading)
            + lookup::learned_ahead(sources::learned_under(entries, reading), reading)
            == learned_in_order(entries, reading),
{
    sources::law_lookup(entries, reading);
    lemma_ahead_filter(entries, reading);
    let exact = entries.filter(sources::for_reading(reading));
    let l = lookup::learned_exactly(sources::learned_for(entries, reading), reading);
    assert forall|i: int| 0 <= i < exact.len() implies #[trigger] exact[i].0 == reading by {
        lemma_filter_sound(entries, sources::for_reading(reading), i);
    }
    assert(l =~= exact.map_values(as_candidate()));
}

/// A filter keeps what satisfies it.
pub proof fn lemma_filter_has<A>(s: Seq<A>, p: spec_fn(A) -> bool, x: A)
    requires
        s.contains(x),
        p(x),
    ensures
        s.filter(p).contains(x),
    decreases s.len(),
{
    reveal(Seq::filter);
    let i = choose|i: int| 0 <= i < s.len() && s[i] == x;
    let front = s.drop_last();
    if i < front.len() {
        assert(front[i] == x);
        lemma_filter_has(front, p, x);
        let j = choose|j: int| 0 <= j < front.filter(p).len() && front.filter(p)[j] == x;
        assert(s.filter(p)[j] == x);
    } else {
        assert(s.filter(p)[front.filter(p).len() as int] == x);
    }
}

/// A filter keeps nothing else.
pub proof fn lemma_filter_sound<A>(s: Seq<A>, p: spec_fn(A) -> bool, i: int)
    requires
        0 <= i < s.filter(p).len(),
    ensures
        s.contains(s.filter(p)[i]),
        p(s.filter(p)[i]),
    decreases s.len(),
{
    reveal(Seq::filter);
    if s.len() > 0 {
        let front = s.drop_last();
        if i < front.filter(p).len() {
            lemma_filter_sound(front, p, i);
            let x = front.filter(p)[i];
            let j = choose|j: int| 0 <= j < front.len() && front[j] == x;
            assert(s[j] == x);
        } else {
            assert(s[s.len() - 1] == s.last());
        }
    }
}

proof fn lemma_learned_has(
    entries: Seq<(Seq<char>, Seq<char>)>,
    reading: Seq<char>,
    e: (Seq<char>, Seq<char>),
)
    requires
        entries.contains(e),
        e.0 == reading || of_use(e, reading),
    ensures
        distinct::has_key(learned_in_order(entries, reading), e.1),
{
    let p = sources::for_reading(reading);
    let q = longer_of_use(reading);
    let all = learned_in_order(entries, reading);
    if e.0 == reading {
        lemma_filter_has(entries, p, e);
        let i = choose|i: int| 0 <= i < entries.filter(p).len() && entries.filter(p)[i] == e;
        assert(all[i].key() == e.1);
    } else {
        lemma_filter_has(entries, q, e);
        let i = choose|i: int| 0 <= i < entries.filter(q).len() && entries.filter(q)[i] == e;
        assert(all[entries.filter(p).len() + i].key() == e.1);
    }
}

/// At most three learned choices are offered, in the order of the cache, those for
/// exactly this reading first. A choice that is of use is left out only where three
/// others are offered, and one for exactly this reading only for three of its kind.
pub proof fn law_learned_choices(entries: Seq<(Seq<char>, Seq<char>)>, reading: Seq<char>)
    ensures
        lookup::learning_hits(Some(entries), reading).len() <= 3,
        forall|e: (Seq<char>, Seq<char>)|
            entries.contains(e) && (e.0 == reading || of_use(e, reading)) ==> (
            #[trigger] distinct::has_key(lookup::learning_hits(Some(entries), reading), e.1))
                || lookup::learning_hits(Some(entries), reading).len() == 3,
        forall|e: (Seq<char>, Seq<char>), i: int|
            entries.contains(e) && e.0 == reading && !(#[trigger] distinct::has_key(
                lookup::learning_hits(Some(entries), reading),
                e.1,
            )) && 0 <= i < lookup::learning_hits(Some(entries), reading).len() ==> (
            #[trigger] lookup::learning_hits(Some(entries), reading)[i]).reading == Some(reading),
        forall|i: int, j: int|
            0 <= i < j < lookup::learning_hits(Some(entries), reading).len()
                ==> distinct::first_place(
                learned_in_order(entries, reading),
                (#[trigger] lookup::learning_hits(Some(entries), reading)[i]).text,
            ) < distinct::first_place(
                learned_in_order(entries, reading),
                (#[trigger] lookup::learning_hits(Some(entries), reading)[j]).text,
            ),
        forall|i: int|
            0 <= i < lookup::learning_hits(Some(entries), reading).len() ==> ({
                let c = #[trigger] lookup::learning_hits(Some(entries), reading)[i];
                &&& c.reading is Some
                &&& entries.contains((c.reading->0, c.text))
                &&& c.reading->0 == reading || of_use((c.reading->0, c.text), reading)
                &&& c.description is None
            }),
{
    let none = Seq::<CandidateView>::empty();
    let items = learned_in_order(entries, reading);
    let all = distinct::first_of_each(items);
    let hits = lookup::learning_hits(Some(entries), reading);
    lemma_learned_items(entries, reading);
    assert(hits == distinct::at_most(all, 3));
    distinct::law_extend_order(none, items);
    lookup::law_learning_hits(entries, reading);
    assert forall|e: (Seq<char>, Seq<char>)|
        entries.contains(e) && (e.0 == reading || of_use(e, reading)) implies (
    #[trigger] distinct::has_key(hits, e.1)) || hits.len() == 3 by {
        lemma_learned_has(entries, reading, e);
        distinct::law_extend_keys(none, items, e.1);
    }
    let p = sources::for_reading(reading);
    let q = longer_of_use(reading);
    let exact = entries.filter(p);
    let ahead = entries.filter(q);
    assert forall|k: int| 0 <= k < items.len() implies ({
        let c = #[trigger] items[k];
        &&& c.reading is Some
        &&& entries.contains((c.reading->0, c.text))
        &&& c.reading->0 == reading || of_use((c.reading->0, c.text), reading)
        &&& c.description is None
        &&& k < exact.len() <==> c.reading->0 == reading
    }) by {
        if k < exact.len() {
            lemma_filter_sound(entries, p, k);
            assert(items[k] == lookup::learned_candidate(reading, exact[k].1));
            assert(exact[k] == (reading, exact[k].1));
        } else {
            let m = k - exact.len();
            lemma_filter_sound(entries, q, m);
            assert(items[k] == lookup::learned_candidate(ahead[m].0, ahead[m].1));
            assert(ahead[m] == (ahead[m].0, ahead[m].1));
        }
    }
    assert forall|e: (Seq<char>, Seq<char>), i: int|
        entries.contains(e) && e.0 == reading && !(#[trigger] distinct::has_key(hits, e.1)) && 0
            <= i < hits.len() implies (#[trigger] hits[i]).reading == Some(reading) by {
        lemma_filter_has(entries, p, e);
        let a = choose|a: int| 0 <= a < exact.len() && exact[a] == e;
        assert(items[a].key() == e.1);
        assert(distinct::has_key(items, e.1));
        distinct::law_extend_keys(none, items, e.1);
        let b = choose|b: int| 0 <= b < all.len() && (#[trigger] all[b]).key() == e.1;
        if b < hits.len() {
            assert(hits[b].key() == e.1);
        }
        assert(i < b);
        distinct::law_first_place(items, e.1);
        let x = distinct::first_place(items, all[i].key());
        let y = distinct::first_place(items, all[b].key());
        assert(x < y <= a);
        assert(items[x] == all[i]);
    }
}

/// The first place of a surface among dictionary candidates.
pub open spec fn surface_place(v: Seq<DictCandidateView>, t: Seq<char>) -> int
    decreases v.len(),
{
    if v.len() == 0 || v[0].surface == t {
        0
    } else {
        1 + surface_place(v.drop_first(), t)
    }
}

proof fn lemma_from_dict_place(v: Seq<DictCandidateView>, source: CandidateSource, t: Seq<char>)
    ensures
        distinct::first_place(lookup::from_dict(v, source), t) == surface_place(v, t),
    decreases v.len(),
{
    let all = lookup::from_dict(v, source);
    if v.len() > 0 {
        lemma_from_dict_place(v.drop_first(), source, t);
        assert(all.drop_first() =~= lookup::from_dict(v.drop_first(), source));
        assert(all[0].key() == v[0].surface);
    }
}

proof fn lemma_place_left<T: Keyed>(a: Seq<T>, b: Seq<T>, k: Seq<char>)
    ensures
        distinct::first_place(a + b, k) == if distinct::has_key(a, k) {
            distinct::first_place(a, k)
        } else {
            a.len() + distinct::first_place(b, k)
        },
    decreases a.len(),
{
    if a.len() == 0 {
        assert(a + b =~= b);
    } else {
        let rest = a.drop_first();
        lemma_place_left(rest, b, k);
        assert((a + b).drop_first() =~= rest + b);
        distinct::law_first_place(a, k);
        distinct::law_first_place(rest, k);
    }
}

/// One of the candidates with the surface `t` scores no worse than any with `u`.
pub open spec fn no_worse(v: Seq<DictCandidateView>, t: Seq<char>, u: Seq<char>) -> bool {
    exists|i: int|
        0 <= i < v.len() && (#[trigger] v[i]).surface == t && forall|j: int|
            0 <= j < v.len() && (#[trigger] v[j]).surface == u ==> v[i].score <= v[j].score
}

/// A dictionary search marks what the user dictionary has as such, keeps that in the
/// order of the dictionary, and gives the rest by score, the best first.
pub proof fn law_dict_order(s: SourcesView, reading: Seq<char>, limit: nat)
    ensures
        forall|i: int|
            0 <= i < lookup::dict_hits(s, reading, limit).len() ==> (#[trigger] lookup::dict_hits(
                s,
                reading,
                limit,
            )[i]).source == if lookup::has_surface(
                lookup::entries_of(s.user, reading),
                lookup::dict_hits(s, reading, limit)[i].text,
            ) {
                CandidateSource::UserDictionary
            } else {
                CandidateSource::Dictionary
            },
        forall|i: int, j: int|
            0 <= i < j < lookup::dict_hits(s, reading, limit).len() && (#[trigger] lookup::dict_hits(
                s,
                reading,
                limit,
            )[j]).source == CandidateSource::UserDictionary ==> surface_place(
                lookup::entries_of(s.user, reading),
                (#[trigger] lookup::dict_hits(s, reading, limit)[i]).text,
            ) < surface_place(
                lookup::entries_of(s.user, reading),
                lookup::dict_hits(s, reading, limit)[j].text,
            ),
        forall|i: int, j: int|
            0 <= i < j < lookup::dict_hits(s, reading, limit).len() && (#[trigger] lookup::dict_hits(
                s,
                reading,
                limit,
            )[i]).source == CandidateSource::Dictionary ==> no_worse(
                lookup::entries_of(s.system, reading),
                lookup::dict_hits(s, reading, limit)[i].text,
                (#[trigger] lookup::dict_hits(s, reading, limit)[j]).text,
            ),
{
    let none = Seq::<AnnotatedView>::empty();
    let users = lookup::entries_of(s.user, reading);
    let systems = lookup::entries_of(s.system, reading);
    let sorted = sources::by_score(systems);
    let a = lookup::user_hits(s, reading);
    let b = lookup::system_hits(s, reading);
    let hits = lookup::dict_hits(s, reading, limit);
    let all = distinct::first_of_each(a + b);
    assert(a =~= lookup::from_dict(users, CandidateSource::UserDictionary));
    assert(b =~= lookup::from_dict(sorted, CandidateSource::Dictionary)) by {
        assert(sources::by_score(Seq::<DictCandidateView>::empty()) =~= Seq::empty());
    }
    distinct::law_extend_order(none, a + b);
    sources::law_by_score(systems, 0);
    assert forall|i: int| 0 <= i < hits.len() implies ({
        let t = #[trigger] hits[i].text;
        &&& hits[i].source == if lookup::has_surface(users, t) {
            CandidateSource::UserDictionary
        } else {
            CandidateSource::Dictionary
        }
        &&& distinct::first_place(a + b, t) == if lookup::has_surface(users, t) {
            surface_place(users, t)
        } else {
            users.len() + surface_place(sorted, t)
        }
    }) by {
        let t = hits[i].text;
        assert(hits[i] == all[i]);
        assert(hits[i].key() == t);
        lookup::lemma_from_dict(users, CandidateSource::UserDictionary, t);
        lemma_place_left(a, b, t);
        lemma_from_dict_place(users, CandidateSource::UserDictionary, t);
        lemma_from_dict_place(sorted, CandidateSource::Dictionary, t);
        distinct::law_first_place(a, t);
        distinct::law_first_place(b, t);
        let p = distinct::first_place(a + b, t);
        assert((a + b)[p] == hits[i]);
    }
    assert forall|i: int, j: int| 0 <= i < j < hits.len() implies distinct::first_place(
        a + b,
        (#[trigger] hits[i]).text,
    ) < distinct::first_place(a + b, (#[trigger] hits[j]).text) by {
        assert(hits[i] == all[i]);
        assert(hits[j] == all[j]);
        assert(all[i].key() == hits[i].text);
        assert(all[j].key() == hits[j].text);
    }
    assert forall|i: int, j: int|
        0 <= i < j < hits.len() && (#[trigger] hits[j]).source
            == CandidateSource::UserDictionary implies surface_place(
        users,
        (#[trigger] hits[i]).text,
    ) < surface_place(users, hits[j].text) by {
        lemma_surface_place(users, hits[j].text);
        assert(lookup::has_surface(users, hits[j].text));
        assert(distinct::first_place(a + b, hits[i].text) < users.len());
        lemma_surface_place(users, hits[i].text);
    }
    assert forall|i: int, j: int|
        0 <= i < j < hits.len() && (#[trigger] hits[i]).source
            == CandidateSource::Dictionary implies no_worse(
        systems,
        hits[i].text,
        (#[trigger] hits[j]).text,
    ) by {
        let t = hits[i].text;
        let u = hits[j].text;
        let x = surface_place(sorted, t);
        let y = surface_place(sorted, u);
        lemma_surface_place(users, u);
        lemma_surface_place(sorted, t);
        lemma_surface_place(sorted, u);
        assert(distinct::first_place(a + b, t) < distinct::first_place(a + b, u));
        assert(!lookup::has_surface(users, u));
        assert(x < y);
        assert(y < sorted.len()) by {
            assert(hits[j] == all[j]);
            assert(all[j].key() == u);
        }
        let best = sorted[x];
        assert(best.surface == t);
        assert(sorted.contains(best));
        vstd::seq_lib::to_multiset_contains(sorted, best);
        vstd::seq_lib::to_multiset_contains(systems, best);
        let k = choose|k: int| 0 <= k < systems.len() && systems[k] == best;
        assert forall|m: int| 0 <= m < systems.len() && (#[trigger] systems[m]).surface
            == u implies systems[k].score <= systems[m].score by {
            let other = systems[m];
            assert(systems.contains(other));
            vstd::seq_lib::to_multiset_contains(systems, other);
            vstd::seq_lib::to_multiset_contains(sorted, other);
            let n = choose|n: int| 0 <= n < sorted.len() && sorted[n] == other;
            assert(sorted[n].surface == u);
            assert(y <= n);
            assert(sorted[x].score <= sorted[n].score);
        }
        assert(systems[k].surface == t);
    }
}

proof fn lemma_surface_place(v: Seq<DictCandidateView>, t: Seq<char>)
    ensures
        0 <= surface_place(v, t) <= v.len(),
        surface_place(v, t) < v.len() <==> lookup::has_surface(v, t),
        surface_place(v, t) < v.len() ==> v[surface_place(v, t)].surface == t,
        forall|j: int| 0 <= j < surface_place(v, t) ==> (#[trigger] v[j]).surface != t,
    decreases v.len(),
{
    if v.len() > 0 {
        let rest = v.drop_first();
        lemma_surface_place(rest, t);
        if v[0].surface != t {
            assert forall|j: int| 0 <= j < surface_place(v, t) implies (
            #[trigger] v[j]).surface != t by {
                if j > 0 {
                    assert(rest[j - 1].surface != t);
                }
            }
            if lookup::has_surface(v, t) {
                let i = choose|i: int| 0 <= i < v.len() && (#[trigger] v[i]).surface == t;
                assert(rest[i - 1].surface == t);
            }
        }
    }
}

/// No candidate comes from this source.
spec fn none_from(list: Seq<AnnotatedView>, source: CandidateSource) -> bool {
    forall|i: int| 0 <= i < list.len() ==> (#[trigger] list[i]).source != source
}

/// What comes from `source` in the list is from `items`, in their order, each the first
/// with its text, and its text is not among `before`.
spec fn staged(
    list: Seq<AnnotatedView>,
    before: Seq<AnnotatedView>,
    items: Seq<AnnotatedView>,
    source: CandidateSource,
) -> bool {
    &&& forall|i: int|
        0 <= i < list.len() && (#[trigger] list[i]).source == source ==> {
            &&& !distinct::has_key(before, list[i].text)
            &&& 0 <= distinct::first_place(items, list[i].text) < items.len()
            &&& items[distinct::first_place(items, list[i].text)] == list[i]
        }
    &&& forall|i: int, j: int|
        0 <= i < j < list.len() && (#[trigger] list[i]).source == source && (
        #[trigger] list[j]).source == source ==> distinct::first_place(items, list[i].text)
            < distinct::first_place(items, list[j].text)
}

proof fn lemma_staged_new(
    before: Seq<AnnotatedView>,
    items: Seq<AnnotatedView>,
    source: CandidateSource,
)
    requires
        none_from(before, source),
    ensures
        staged(distinct::extend_new(before, items), before, items, source),
{
    let list = distinct::extend_new(before, items);
    distinct::law_extend_order(before, items);
    distinct::law_extend_keeps_list(before, items);
    assert forall|i: int| 0 <= i < list.len() && (#[trigger] list[i]).source == source implies {
        &&& before.len() <= i
        &&& !distinct::has_key(before, list[i].text)
        &&& 0 <= distinct::first_place(items, list[i].text) < items.len()
        &&& items[distinct::first_place(items, list[i].text)] == list[i]
    } by {
        if i < before.len() {
            assert(list.take(before.len() as int)[i] == before[i]);
        }
        assert(list[i].key() == list[i].text);
    }
    assert forall|i: int, j: int|
        0 <= i < j < list.len() && (#[trigger] list[i]).source == source && (
        #[trigger] list[j]).source == source implies distinct::first_place(items, list[i].text)
        < distinct::first_place(items, list[j].text) by {
        assert(list[i].key() == list[i].text);
        assert(list[j].key() == list[j].text);
    }
}

proof fn lemma_staged_more(
    list: Seq<AnnotatedView>,
    more: Seq<AnnotatedView>,
    before: Seq<AnnotatedView>,
    items: Seq<AnnotatedView>,
    source: CandidateSource,
)
    requires
        staged(list, before, items, source),
        none_from(more, source),
    ensures
        staged(distinct::extend_new(list, more), before, items, source),
{
    let all = distinct::extend_new(list, more);
    distinct::law_extend_keeps_list(list, more);
    assert forall|i: int| 0 <= i < all.len() && (#[trigger] all[i]).source == source implies i
        < list.len() && all[i] == list[i] by {
        if i < list.len() {
            assert(all.take(list.len() as int)[i] == list[i]);
        } else {
            distinct::law_extend_adds_items(list, more, i);
            let k = choose|k: int| 0 <= k < more.len() && more[k] == all[i];
            assert(more[k].source != source);
        }
    }
}

proof fn lemma_none_from_extend(
    list: Seq<AnnotatedView>,
    items: Seq<AnnotatedView>,
    source: CandidateSource,
)
    requires
        none_from(list, source),
        none_from(items, source),
    ensures
        none_from(distinct::extend_new(list, items), source),
{
    let all = distinct::extend_new(list, items);
    assert forall|i: int| 0 <= i < all.len() implies (#[trigger] all[i]).source != source by {
        distinct::law_extend_members(list, items, i);
        if list.contains(all[i]) {
            let k = choose|k: int| 0 <= k < list.len() && list[k] == all[i];
            assert(list[k].source != source);
        } else {
            let k = choose|k: int| 0 <= k < items.len() && items[k] == all[i];
            assert(items[k].source != source);
        }
    }
}

/// What a list of candidates is put together from, in this order.
pub struct Parts {
    pub learned: Seq<AnnotatedView>,
    pub users: Seq<AnnotatedView>,
    pub models: Seq<AnnotatedView>,
    pub systems: Seq<AnnotatedView>,
    pub forms: Seq<AnnotatedView>,
    pub variants: Seq<AnnotatedView>,
}

spec fn parts_of(
    e: EngineView,
    reading: Seq<char>,
    num_candidates: usize,
    skip_learning: bool,
) -> Parts {
    let dict = lookup::dict_hits(e.sources, reading, usize::MAX as nat);
    Parts {
        learned: collect::learned_or_skipped(e, reading, skip_learning),
        users: collect::only(dict, CandidateSource::UserDictionary),
        models: collect::from_model(
            model::model_texts(
                e.sources,
                e.model,
                reading,
                model::api_context(e.sources),
                num_candidates,
            ),
        ),
        systems: collect::only(dict, CandidateSource::Dictionary),
        forms: if e.mode == InputMode::Emoji {
            Seq::empty()
        } else {
            collect::kana_forms(reading)
        },
        variants: collect::from_rules(sources::rules_for(e.sources.rules, reading)),
    }
}

spec fn all_from(list: Seq<AnnotatedView>, source: CandidateSource) -> bool {
    forall|i: int| 0 <= i < list.len() ==> (#[trigger] list[i]).source == source
}

proof fn lemma_only_all(list: Seq<AnnotatedView>, source: CandidateSource)
    ensures
        all_from(collect::only(list, source), source),
        forall|i: int|
            0 <= i < collect::only(list, source).len() ==> list.contains(
                #[trigger] collect::only(list, source)[i],
            ),
        forall|x: AnnotatedView|
            list.contains(x) && x.source == source ==> #[trigger] collect::only(
                list,
                source,
            ).contains(x),
    decreases list.len(),
{
    let all = collect::only(list, source);
    if list.len() > 0 {
        let front = list.drop_last();
        lemma_only_all(front, source);
        let before = collect::only(front, source);
        assert forall|i: int| 0 <= i < all.len() implies list.contains(#[trigger] all[i])
            && all[i].source == source by {
            if i < before.len() {
                assert(all[i] == before[i]);
                let k = choose|k: int| 0 <= k < front.len() && front[k] == before[i];
                assert(list[k] == all[i]);
            } else {
                assert(list[list.len() - 1] == all[i]);
            }
        }
        assert forall|x: AnnotatedView| list.contains(x) && x.source == source implies
            #[trigger] all.contains(x) by {
            let k = choose|k: int| 0 <= k < list.len() && list[k] == x;
            if k < front.len() {
                assert(front[k] == x);
                assert(before.contains(x));
                let m = choose|m: int| 0 <= m < before.len() && before[m] == x;
                assert(all[m] == x);
            } else {
                assert(all[before.len() as int] == x);
            }
        }
    }
}

/// What `only` keeps stays in order.
proof fn lemma_only_order(list: Seq<AnnotatedView>, source: CandidateSource, x: int, y: int)
    requires
        0 <= x < y < collect::only(list, source).len(),
    ensures
        exists|a: int, b: int|
            0 <= a < b < list.len() && #[trigger] list[a] == collect::only(list, source)[x]
                && #[trigger] list[b] == collect::only(list, source)[y],
    decreases list.len(),
{
    let all = collect::only(list, source);
    let front = list.drop_last();
    let before = collect::only(front, source);
    if y < before.len() {
        lemma_only_order(front, source, x, y);
        let (a, b) = choose|a: int, b: int|
            0 <= a < b < front.len() && #[trigger] front[a] == before[x] && #[trigger] front[b]
                == before[y];
        assert(list[a] == all[x] && list[b] == all[y]);
    } else {
        lemma_only_all(front, source);
        assert(front.contains(before[x]));
        let a = choose|a: int| 0 <= a < front.len() && front[a] == before[x];
        assert(list[a] == all[x]);
        assert(list[list.len() - 1] == all[y]);
    }
}

proof fn lemma_parts_sources(p: Parts, list: Seq<AnnotatedView>)
    requires
        all_from(p.learned, CandidateSource::Learning),
        all_from(p.users, CandidateSource::UserDictionary),
        all_from(p.models, CandidateSource::Model),
        all_from(p.systems, CandidateSource::Dictionary),
        all_from(p.forms, CandidateSource::Fallback),
        all_from(p.variants, CandidateSource::Rewriter),
        list == joined_parts(p),
        distinct::all_distinct(p.learned),
    ensures
        staged(list, Seq::empty(), p.learned, CandidateSource::Learning),
        staged(list, p.learned, p.users, CandidateSource::UserDictionary),
        staged(list, parts_to_users(p), p.models, CandidateSource::Model),
        staged(list, parts_to_models(p), p.systems, CandidateSource::Dictionary),
        staged(list, parts_to_systems(p), p.forms, CandidateSource::Fallback),
        staged(list, parts_to_forms(p), p.variants, CandidateSource::Rewriter),
{
    let l1 = parts_to_users(p);
    let l2 = parts_to_models(p);
    let l3 = parts_to_systems(p);
    let l4 = parts_to_forms(p);
    let none = Seq::<AnnotatedView>::empty();
    lemma_distinct_extend(p.learned);
    let a = CandidateSource::Learning;
    lemma_staged_new(none, p.learned, a);
    lemma_staged_more(p.learned, p.users, none, p.learned, a);
    lemma_staged_more(l1, p.models, none, p.learned, a);
    lemma_staged_more(l2, p.systems, none, p.learned, a);
    lemma_staged_more(l3, p.forms, none, p.learned, a);
    lemma_staged_more(l4, p.variants, none, p.learned, a);
    let b = CandidateSource::UserDictionary;
    lemma_staged_new(p.learned, p.users, b);
    lemma_staged_more(l1, p.models, p.learned, p.users, b);
    lemma_staged_more(l2, p.systems, p.learned, p.users, b);
    lemma_staged_more(l3, p.forms, p.learned, p.users, b);
    lemma_staged_more(l4, p.variants, p.learned, p.users, b);
    let c = CandidateSource::Model;
    lemma_none_from_extend(p.learned, p.users, c);
    lemma_staged_new(l1, p.models, c);
    lemma_staged_more(l2, p.systems, l1, p.models, c);
    lemma_staged_more(l3, p.forms, l1, p.models, c);
    lemma_staged_more(l4, p.variants, l1, p.models, c);
    let d = CandidateSource::Dictionary;
    lemma_none_from_extend(p.learned, p.users, d);
    lemma_none_from_extend(l1, p.models, d);
    lemma_staged_new(l2, p.systems, d);
    lemma_staged_more(l3, p.forms, l2, p.systems, d);
    lemma_staged_more(l4, p.variants, l2, p.systems, d);
    let f = CandidateSource::Fallback;
    lemma_none_from_extend(p.learned, p.users, f);
    lemma_none_from_extend(l1, p.models, f);
    lemma_none_from_extend(l2, p.systems, f);
    lemma_staged_new(l3, p.forms, f);
    lemma_staged_more(l4, p.variants, l3, p.forms, f);
    let r = CandidateSource::Rewriter;
    lemma_none_from_extend(p.learned, p.users, r);
    lemma_none_from_extend(l1, p.models, r);
    lemma_none_from_extend(l2, p.systems, r);
    lemma_none_from_extend(l3, p.forms, r);
    lemma_staged_new(l4, p.variants, r);
}

spec fn parts_to_users(p: Parts) -> Seq<AnnotatedView> {
    distinct::extend_new(p.learned, p.users)
}

spec fn parts_to_models(p: Parts) -> Seq<AnnotatedView> {
    distinct::extend_new(parts_to_users(p), p.models)
}

spec fn parts_to_systems(p: Parts) -> Seq<AnnotatedView> {
    distinct::extend_new(parts_to_models(p), p.systems)
}

spec fn parts_to_forms(p: Parts) -> Seq<AnnotatedView> {
    distinct::extend_new(parts_to_systems(p), p.forms)
}

spec fn joined_parts(p: Parts) -> Seq<AnnotatedView> {
    distinct::extend_new(parts_to_forms(p), p.variants)
}

proof fn lemma_distinct_extend(items: Seq<AnnotatedView>)
    requires
        distinct::all_distinct(items),
    ensures
        distinct::extend_new(Seq::<AnnotatedView>::empty(), items) == items,
    decreases items.len(),
{
    if items.len() > 0 {
        let front = items.drop_last();
        assert forall|i: int, j: int| 0 <= i < j < front.len() implies (
        #[trigger] front[i]).key() != (#[trigger] front[j]).key() by {
            assert(items[i].key() != items[j].key());
        }
        lemma_distinct_extend(front);
        assert(!distinct::has_key(front, items.last().key())) by {
            if distinct::has_key(front, items.last().key()) {
                let k = items.last().key();
                let i = choose|i: int| 0 <= i < front.len() && (#[trigger] front[i]).key() == k;
                assert(items[i].key() != items[items.len() - 1].key());
            }
        }
        assert(front.push(items.last()) =~= items);
    } else {
        assert(items =~= Seq::empty());
    }
}

proof fn lemma_parts(e: EngineView, reading: Seq<char>, n: usize, skip_learning: bool)
    ensures
        ({
            let p = parts_of(e, reading, n, skip_learning);
            let list = collect::candidates_for(e, reading, n, skip_learning);
            &&& list.len() == joined_parts(p).len()
            &&& forall|i: int|
                0 <= i < list.len() ==> (#[trigger] list[i]).text == joined_parts(p)[i].text
                    && list[i].source == joined_parts(p)[i].source && list[i].reading
                    == joined_parts(p)[i].reading && list[i] == collect::script_noted(
                    collect::symbol_named(e.sources, joined_parts(p)[i]),
                )
            &&& staged(joined_parts(p), Seq::empty(), p.learned, CandidateSource::Learning)
            &&& staged(joined_parts(p), p.learned, p.users, CandidateSource::UserDictionary)
            &&& staged(joined_parts(p), parts_to_users(p), p.models, CandidateSource::Model)
            &&& staged(joined_parts(p), parts_to_models(p), p.systems, CandidateSource::Dictionary)
            &&& staged(joined_parts(p), parts_to_systems(p), p.forms, CandidateSource::Fallback)
            &&& staged(joined_parts(p), parts_to_forms(p), p.variants, CandidateSource::Rewriter)
        }),
{
    let p = parts_of(e, reading, n, skip_learning);
    let dict = lookup::dict_hits(e.sources, reading, usize::MAX as nat);
    lemma_only_all(dict, CandidateSource::UserDictionary);
    lemma_only_all(dict, CandidateSource::Dictionary);
    let texts = model::model_texts(
        e.sources,
        e.model,
        reading,
        model::api_context(e.sources),
        n,
    );
    let base = parts_to_systems(p);
    if e.mode == InputMode::Emoji {
        assert(parts_to_forms(p) == base);
    } else {
        distinct::lemma_extend_concat(base, p.forms, p.variants);
    }
    assert(joined_parts(p) == collect::collected(e.sources, p.learned, e.mode, texts, reading));
    if e.learning is Some {
        lookup::law_learning_hits(e.learning->0, reading);
    }
    let hits = lookup::learning_hits(e.learning, reading);
    assert forall|i: int, j: int| 0 <= i < j < p.learned.len() implies (
    #[trigger] p.learned[i]).key() != (#[trigger] p.learned[j]).key() by {
        assert(p.learned[i].key() == hits[i].key());
        assert(p.learned[j].key() == hits[j].key());
    }
    lemma_parts_sources(p, joined_parts(p));
}

/// The models gave this text.
pub open spec fn from_a_model(e: EngineView, reading: Seq<char>, n: usize, t: Seq<char>) -> bool {
    model::model_texts(
        e.sources,
        e.model,
        reading,
        model::api_context(e.sources),
        n,
    ).contains(t)
}

/// The learning cache offers this text.
pub open spec fn from_learning(
    e: EngineView,
    reading: Seq<char>,
    skip_learning: bool,
    t: Seq<char>,
) -> bool {
    !skip_learning && distinct::has_key(lookup::learning_hits(e.learning, reading), t)
}

/// The user dictionary has this surface.
pub open spec fn from_user(e: EngineView, reading: Seq<char>, t: Seq<char>) -> bool {
    lookup::has_surface(lookup::entries_of(e.sources.user, reading), t)
}

/// The system dictionary has this surface.
pub open spec fn from_system(e: EngineView, reading: Seq<char>, t: Seq<char>) -> bool {
    lookup::has_surface(lookup::entries_of(e.sources.system, reading), t)
}

/// The table has this variant of the reading.
pub open spec fn from_table(e: EngineView, reading: Seq<char>, t: Seq<char>) -> bool {
    exists|i: int|
        0 <= i < e.sources.rules.len() && (#[trigger] e.sources.rules[i]).input == reading
            && e.sources.rules[i].variant == t
}

/// The surfaces of both dictionaries can be counted by a machine.
pub open spec fn countable(e: EngineView, reading: Seq<char>) -> bool {
    lookup::entries_of(e.sources.user, reading).len() + lookup::entries_of(
        e.sources.system,
        reading,
    ).len() <= usize::MAX
}

proof fn lemma_part_keys(e: EngineView, reading: Seq<char>, n: usize, skip: bool, t: Seq<char>)
    requires
        countable(e, reading),
    ensures
        ({
            let p = parts_of(e, reading, n, skip);
            &&& distinct::has_key(p.learned, t) <==> from_learning(e, reading, skip, t)
            &&& distinct::has_key(p.users, t) <==> from_user(e, reading, t)
            &&& distinct::has_key(p.models, t) <==> from_a_model(e, reading, n, t)
            &&& distinct::has_key(p.systems, t) <==> from_system(e, reading, t) && !from_user(
                e,
                reading,
                t,
            )
            &&& distinct::has_key(p.forms, t) <==> e.mode != InputMode::Emoji && (t == reading || t
                == text::katakana(reading))
            &&& distinct::has_key(p.variants, t) <==> from_table(e, reading, t)
        }),
{
    let p = parts_of(e, reading, n, skip);
    let hits = lookup::learning_hits(e.learning, reading);
    if distinct::has_key(p.learned, t) {
        let i = choose|i: int| 0 <= i < p.learned.len() && (#[trigger] p.learned[i]).key() == t;
        assert(hits[i].key() == t);
    }
    if from_learning(e, reading, skip, t) {
        let i = choose|i: int| 0 <= i < hits.len() && (#[trigger] hits[i]).key() == t;
        assert(p.learned[i].key() == t);
    }
    let max = usize::MAX as nat;
    let dict = lookup::dict_hits(e.sources, reading, max);
    lookup::law_dict_hits_are_all_surfaces(e.sources, reading, max, t);
    law_dict_order(e.sources, reading, max);
    lemma_only_all(dict, CandidateSource::UserDictionary);
    lemma_only_all(dict, CandidateSource::Dictionary);
    if distinct::has_key(dict, t) {
        let i = choose|i: int| 0 <= i < dict.len() && (#[trigger] dict[i]).key() == t;
        let x = dict[i];
        assert(dict.contains(x));
        assert(x.text == t);
        if from_user(e, reading, t) {
            assert(p.users.contains(x));
            let k = choose|k: int| 0 <= k < p.users.len() && p.users[k] == x;
            assert(p.users[k].key() == t);
        } else {
            assert(p.systems.contains(x));
            let k = choose|k: int| 0 <= k < p.systems.len() && p.systems[k] == x;
            assert(p.systems[k].key() == t);
        }
    }
    if distinct::has_key(p.users, t) {
        let i = choose|i: int| 0 <= i < p.users.len() && (#[trigger] p.users[i]).key() == t;
        let k = choose|k: int| 0 <= k < dict.len() && dict[k] == p.users[i];
        assert(dict[k].text == t);
    }
    if distinct::has_key(p.systems, t) {
        let i = choose|i: int| 0 <= i < p.systems.len() && (#[trigger] p.systems[i]).key() == t;
        let k = choose|k: int| 0 <= k < dict.len() && dict[k] == p.systems[i];
        assert(dict[k].text == t);
        assert(dict[k].key() == t);
        assert(distinct::has_key(dict, t));
    }
    let texts = model::model_texts(
        e.sources,
        e.model,
        reading,
        model::api_context(e.sources),
        n,
    );
    if distinct::has_key(p.models, t) {
        let i = choose|i: int| 0 <= i < p.models.len() && (#[trigger] p.models[i]).key() == t;
        assert(texts[i] == t);
    }
    if from_a_model(e, reading, n, t) {
        let i = choose|i: int| 0 <= i < texts.len() && texts[i] == t;
        assert(p.models[i].key() == t);
    }
    if e.mode != InputMode::Emoji {
        assert(p.forms[0].key() == reading);
        assert(p.forms[1].key() == text::katakana(reading));
    }
    let rules = e.sources.rules;
    let found = rules.filter(sources::for_input(reading));
    sources::law_rules_for(rules, reading);
    if distinct::has_key(p.variants, t) {
        let i = choose|i: int| 0 <= i < p.variants.len() && (#[trigger] p.variants[i]).key() == t;
        lemma_filter_sound(rules, sources::for_input(reading), i);
        let k = choose|k: int| 0 <= k < rules.len() && rules[k] == found[i];
        assert(rules[k].variant == t);
    }
    if from_table(e, reading, t) {
        let i = choose|i: int|
            0 <= i < rules.len() && (#[trigger] rules[i]).input == reading && rules[i].variant == t;
        lemma_filter_has(rules, sources::for_input(reading), rules[i]);
        let k = choose|k: int| 0 <= k < found.len() && found[k] == rules[i];
        assert(p.variants[k].key() == t);
    }
}

/// A text is offered exactly if the learning cache, a dictionary, a model or the table of
/// variants gives it, or if it is the reading in hiragana or in katakana, which in emoji
/// mode is not offered.
pub proof fn law_everything_is_offered(
    e: EngineView,
    reading: Seq<char>,
    n: usize,
    skip_learning: bool,
    t: Seq<char>,
)
    requires
        countable(e, reading),
    ensures
        distinct::has_key(collect::candidates_for(e, reading, n, skip_learning), t) <==> {
            ||| from_learning(e, reading, skip_learning, t)
            ||| from_user(e, reading, t)
            ||| from_a_model(e, reading, n, t)
            ||| from_system(e, reading, t)
            ||| e.mode != InputMode::Emoji && (t == reading || t == text::katakana(reading))
            ||| from_table(e, reading, t)
        },
{
    let p = parts_of(e, reading, n, skip_learning);
    let list = collect::candidates_for(e, reading, n, skip_learning);
    let all = joined_parts(p);
    lemma_parts(e, reading, n, skip_learning);
    lemma_part_keys(e, reading, n, skip_learning, t);
    distinct::law_extend_keys(p.learned, p.users, t);
    distinct::law_extend_keys(parts_to_users(p), p.models, t);
    distinct::law_extend_keys(parts_to_models(p), p.systems, t);
    distinct::law_extend_keys(parts_to_systems(p), p.forms, t);
    distinct::law_extend_keys(parts_to_forms(p), p.variants, t);
    if distinct::has_key(list, t) {
        let i = choose|i: int| 0 <= i < list.len() && (#[trigger] list[i]).key() == t;
        assert(all[i].key() == t);
    }
    if distinct::has_key(all, t) {
        let i = choose|i: int| 0 <= i < all.len() && (#[trigger] all[i]).key() == t;
        assert(list[i].key() == t);
    }
}

/// The source that a candidate with this text is shown under: the first that gives it.
pub open spec fn source_for(
    e: EngineView,
    reading: Seq<char>,
    n: usize,
    skip_learning: bool,
    t: Seq<char>,
) -> CandidateSource {
    if from_learning(e, reading, skip_learning, t) {
        CandidateSource::Learning
    } else if from_user(e, reading, t) {
        CandidateSource::UserDictionary
    } else if from_a_model(e, reading, n, t) {
        CandidateSource::Model
    } else if from_system(e, reading, t) {
        CandidateSource::Dictionary
    } else if e.mode != InputMode::Emoji && (t == reading || t == text::katakana(reading)) {
        CandidateSource::Fallback
    } else {
        CandidateSource::Rewriter
    }
}

/// Every candidate is shown under the first source that gives its text.
pub proof fn law_source_of_candidate(
    e: EngineView,
    reading: Seq<char>,
    n: usize,
    skip_learning: bool,
    i: int,
)
    requires
        countable(e, reading),
        0 <= i < collect::candidates_for(e, reading, n, skip_learning).len(),
    ensures
        collect::candidates_for(e, reading, n, skip_learning)[i].source == source_for(
            e,
            reading,
            n,
            skip_learning,
            collect::candidates_for(e, reading, n, skip_learning)[i].text,
        ),
{
    let p = parts_of(e, reading, n, skip_learning);
    let all = joined_parts(p);
    let list = collect::candidates_for(e, reading, n, skip_learning);
    lemma_parts(e, reading, n, skip_learning);
    let t = list[i].text;
    lemma_part_keys(e, reading, n, skip_learning, t);
    distinct::law_extend_keys(p.learned, p.users, t);
    distinct::law_extend_keys(parts_to_users(p), p.models, t);
    distinct::law_extend_keys(parts_to_models(p), p.systems, t);
    distinct::law_extend_keys(parts_to_systems(p), p.forms, t);
    distinct::law_first_place(p.learned, t);
    distinct::law_first_place(p.users, t);
    distinct::law_first_place(p.models, t);
    distinct::law_first_place(p.systems, t);
    distinct::law_first_place(p.forms, t);
    distinct::law_first_place(p.variants, t);
    assert(all[i].text == t && all[i].source == list[i].source);
}

proof fn lemma_from_model_place(texts: Seq<Seq<char>>, t: Seq<char>)
    ensures
        distinct::first_place(collect::from_model(texts), t) == distinct::first_place(texts, t),
    decreases texts.len(),
{
    let all = collect::from_model(texts);
    if texts.len() > 0 {
        lemma_from_model_place(texts.drop_first(), t);
        assert(all.drop_first() =~= collect::from_model(texts.drop_first()));
        assert(all[0].key() == texts[0]);
        assert(texts[0].key() == texts[0]);
    }
}

/// Within each source the candidates keep its order: the learned ones as the learning
/// cache offers them, those of the user dictionary as they stand there, those of the
/// models as these gave them, those of the system dictionary by score, and the reading
/// in hiragana before katakana.
pub proof fn law_order_within_source(
    e: EngineView,
    reading: Seq<char>,
    n: usize,
    skip_learning: bool,
    i: int,
    j: int,
)
    requires
        0 <= i < j < collect::candidates_for(e, reading, n, skip_learning).len(),
        collect::candidates_for(e, reading, n, skip_learning)[i].source
            == collect::candidates_for(e, reading, n, skip_learning)[j].source,
    ensures
        ({
            let list = collect::candidates_for(e, reading, n, skip_learning);
            let a = list[i].text;
            let b = list[j].text;
            match list[i].source {
                CandidateSource::Learning => distinct::first_place(
                    lookup::learning_hits(e.learning, reading),
                    a,
                ) < distinct::first_place(lookup::learning_hits(e.learning, reading), b),
                CandidateSource::UserDictionary => surface_place(
                    lookup::entries_of(e.sources.user, reading),
                    a,
                ) < surface_place(lookup::entries_of(e.sources.user, reading), b),
                CandidateSource::Model => {
                    let texts = model::model_texts(
                        e.sources,
                        e.model,
                        reading,
                        model::api_context(e.sources),
                        n,
                    );
                    distinct::first_place(texts, a) < distinct::first_place(texts, b)
                },
                CandidateSource::Dictionary => no_worse(
                    lookup::entries_of(e.sources.system, reading),
                    a,
                    b,
                ),
                CandidateSource::Fallback => a == reading && b == text::katakana(reading),
                CandidateSource::Rewriter => true,
            }
        }),
{
    let p = parts_of(e, reading, n, skip_learning);
    let all = joined_parts(p);
    let list = collect::candidates_for(e, reading, n, skip_learning);
    lemma_parts(e, reading, n, skip_learning);
    let a = list[i].text;
    let b = list[j].text;
    assert(all[i].text == a && all[j].text == b);
    let max = usize::MAX as nat;
    let dict = lookup::dict_hits(e.sources, reading, max);
    match list[i].source {
        CandidateSource::Learning => {
            let hits = lookup::learning_hits(e.learning, reading);
            lemma_learned_place(hits, reading, a);
            lemma_learned_place(hits, reading, b);
        },
        CandidateSource::UserDictionary => {
            let x = distinct::first_place(p.users, a);
            let y = distinct::first_place(p.users, b);
            lemma_only_order(dict, CandidateSource::UserDictionary, x, y);
            let (k, m) = choose|k: int, m: int|
                0 <= k < m < dict.len() && #[trigger] dict[k] == p.users[x] && #[trigger] dict[m]
                    == p.users[y];
            law_dict_order(e.sources, reading, max);
            lemma_only_all(dict, CandidateSource::UserDictionary);
            assert(dict[m].text == b && dict[k].text == a);
        },
        CandidateSource::Model => {
            let texts = model::model_texts(
                e.sources,
                e.model,
                reading,
                model::api_context(e.sources),
                n,
            );
            lemma_from_model_place(texts, a);
            lemma_from_model_place(texts, b);
        },
        CandidateSource::Dictionary => {
            let x = distinct::first_place(p.systems, a);
            let y = distinct::first_place(p.systems, b);
            lemma_only_order(dict, CandidateSource::Dictionary, x, y);
            let (k, m) = choose|k: int, m: int|
                0 <= k < m < dict.len() && #[trigger] dict[k] == p.systems[x] && #[trigger] dict[m]
                    == p.systems[y];
            law_dict_order(e.sources, reading, max);
            lemma_only_all(dict, CandidateSource::Dictionary);
            assert(dict[m].text == b && dict[k].text == a);
        },
        CandidateSource::Fallback => {
            let x = distinct::first_place(p.forms, a);
            let y = distinct::first_place(p.forms, b);
            assert(p.forms.len() <= 2);
            assert(x == 0 && y == 1);
        },
        CandidateSource::Rewriter => {},
    }
}

proof fn lemma_learned_place(hits: Seq<CandidateView>, reading: Seq<char>, t: Seq<char>)
    ensures
        distinct::first_place(
            hits.map_values(|c: CandidateView| collect::from_learned(c, reading)),
            t,
        ) == distinct::first_place(hits, t),
    decreases hits.len(),
{
    let all = hits.map_values(|c: CandidateView| collect::from_learned(c, reading));
    if hits.len() > 0 {
        lemma_learned_place(hits.drop_first(), reading, t);
        assert(all.drop_first() =~= hits.drop_first().map_values(
            |c: CandidateView| collect::from_learned(c, reading),
        ));
        assert(all[0].key() == hits[0].key());
    }
}

/// Without models, dictionaries and a learning cache the reading itself is offered first,
/// but for emoji mode.
pub proof fn law_bare_reading_is_first(
    e: EngineView,
    reading: Seq<char>,
    n: usize,
    skip_learning: bool,
)
    requires
        e.sources.kanji is None,
        e.sources.user is None,
        e.sources.system is None,
        e.learning is None,
        e.mode != InputMode::Emoji,
    ensures
        collect::candidates_for(e, reading, n, skip_learning).len() > 0,
        collect::candidates_for(e, reading, n, skip_learning)[0].text == reading,
{
    let p = parts_of(e, reading, n, skip_learning);
    let dict = lookup::dict_hits(e.sources, reading, usize::MAX as nat);
    lemma_parts(e, reading, n, skip_learning);
    law_dict_order(e.sources, reading, usize::MAX as nat);
    if dict.len() > 0 {
        assert(dict.contains(dict[0]));
    }
    lemma_only_all(dict, CandidateSource::UserDictionary);
    lemma_only_all(dict, CandidateSource::Dictionary);
    assert(p.users.len() == 0 && p.systems.len() == 0);
    assert(p.learned.len() == 0);
    assert(p.models.len() == 0);
    let base = parts_to_systems(p);
    assert(base.len() == 0);
    distinct::law_extend_keeps_list(parts_to_forms(p), p.variants);
    let one = p.forms.take(1);
    distinct::lemma_extend_concat(base, one, p.forms.skip(1));
    assert(one + p.forms.skip(1) =~= p.forms);
    distinct::lemma_extend_one(base, p.forms[0]);
    assert(one =~= seq![p.forms[0]]);
    let front = distinct::extend_new(base, one);
    assert(front =~= seq![p.forms[0]]);
    distinct::law_extend_keeps_list(front, p.forms.skip(1));
    assert(parts_to_forms(p).take(1)[0] == p.forms[0]);
    assert(joined_parts(p).take(parts_to_forms(p).len() as int)[0] == p.forms[0]);
}

/// A learned candidate carries the reading that it was chosen for, if that is a longer one
/// than the reading that was typed; no other candidate carries a reading.
pub proof fn law_readings_of_candidates(
    e: EngineView,
    reading: Seq<char>,
    n: usize,
    skip_learning: bool,
    i: int,
)
    requires
        0 <= i < collect::candidates_for(e, reading, n, skip_learning).len(),
    ensures
        ({
            let c = collect::candidates_for(e, reading, n, skip_learning)[i];
            if c.source == CandidateSource::Learning {
                &&& e.learning is Some
                &&& c.reading is None ==> e.learning->0.contains((reading, c.text))
                &&& c.reading is Some ==> {
                    let longer = c.reading->0;
                    &&& e.learning->0.contains((longer, c.text))
                    &&& longer != reading
                    &&& of_use((longer, c.text), reading)
                }
            } else {
                c.reading is None
            }
        }),
{
    let p = parts_of(e, reading, n, skip_learning);
    let all = joined_parts(p);
    let c = collect::candidates_for(e, reading, n, skip_learning)[i];
    lemma_parts(e, reading, n, skip_learning);
    let max = usize::MAX as nat;
    let dict = lookup::dict_hits(e.sources, reading, max);
    assert(all[i].text == c.text && all[i].source == c.source);
    match c.source {
        CandidateSource::Learning => {
            let hits = lookup::learning_hits(e.learning, reading);
            let k = distinct::first_place(p.learned, c.text);
            assert(p.learned[k] == collect::from_learned(hits[k], reading));
            lookup::law_learning_hits(e.learning->0, reading);
            let full = hits[k].reading->0;
            assert(full.take(reading.len() as int) =~= full.subrange(0, reading.len() as int));
        },
        CandidateSource::UserDictionary => {
            lemma_only_all(dict, CandidateSource::UserDictionary);
            lookup::law_dict_hits(e.sources, reading, max);
            let k = distinct::first_place(p.users, c.text);
            let m = choose|m: int| 0 <= m < dict.len() && dict[m] == p.users[k];
            assert(dict[m].reading is None);
        },
        CandidateSource::Dictionary => {
            lemma_only_all(dict, CandidateSource::Dictionary);
            lookup::law_dict_hits(e.sources, reading, max);
            let k = distinct::first_place(p.systems, c.text);
            let m = choose|m: int| 0 <= m < dict.len() && dict[m] == p.systems[k];
            assert(dict[m].reading is None);
        },
        _ => {},
    }
}

/// What is said of a text that no source says anything of: which kana it is all in.
pub open spec fn note_on(t: Seq<char>) -> Option<Seq<char>> {
    if t.len() > 0 && forall|i: int| 0 <= i < t.len() ==> 'ぁ' <= #[trigger] t[i] && t[i] <= 'ゟ' {
        Some("[全]ひらがな"@)
    } else if t.len() > 0 && forall|i: int|
        0 <= i < t.len() ==> '\u{30A0}' <= #[trigger] t[i] && t[i] <= 'ヿ' {
        Some("[全]カタカナ"@)
    } else if t.len() > 0 && forall|i: int|
        0 <= i < t.len() ==> 'ｦ' <= #[trigger] t[i] && t[i] <= 'ﾟ' {
        Some("[半]カタカナ"@)
    } else {
        None
    }
}

/// A text that is all hiragana, all katakana or all half-width katakana is noted as that,
/// and no other is.
pub proof fn law_script_note(t: Seq<char>)
    ensures
        candidate::script_note(t) == note_on(t),
{
    if text::pure_hiragana(t) {
        assert forall|i: int| 0 <= i < t.len() implies 'ぁ' <= #[trigger] t[i] && t[i] <= 'ゟ' by {
            assert(text::is_hiragana(t[i]));
        }
    }
    if text::pure_full_katakana(t) {
        assert forall|i: int| 0 <= i < t.len() implies '\u{30A0}' <= #[trigger] t[i] && t[i] <= 'ヿ' by {
            assert(text::is_full_katakana(t[i]));
        }
    }
    if text::pure_half_katakana(t) {
        assert forall|i: int| 0 <= i < t.len() implies 'ｦ' <= #[trigger] t[i] && t[i] <= 'ﾟ' by {
            assert(text::is_half_katakana(t[i]));
        }
    }
}

/// A symbol that stands for the input has its name as description, a variant that of the
/// first rule that gives it; whatever has none of these has the note on its script, if
/// there is one.
pub proof fn law_descriptions_in_full(
    e: EngineView,
    reading: Seq<char>,
    n: usize,
    skip_learning: bool,
    i: int,
)
    requires
        0 <= i < collect::candidates_for(e, reading, n, skip_learning).len(),
    ensures
        ({
            let c = collect::candidates_for(e, reading, n, skip_learning)[i];
            match c.source {
                CandidateSource::Fallback => c.description == if sources::symbol_name(
                    e.sources.symbols,
                    c.text,
                ) is Some {
                    sources::symbol_name(e.sources.symbols, c.text)
                } else {
                    note_on(c.text)
                },
                CandidateSource::Rewriter => exists|k: int|
                    #![trigger e.sources.rules[k]]
                    {
                        let rules = e.sources.rules;
                        &&& 0 <= k < rules.len()
                        &&& rules[k].input == reading
                        &&& rules[k].variant == c.text
                        &&& forall|j: int|
                            0 <= j < k ==> (#[trigger] rules[j]).input != reading
                                || rules[j].variant != c.text
                        &&& c.description == if rules[k].description is Some {
                            rules[k].description
                        } else {
                            note_on(c.text)
                        }
                    },
                _ => c.description == note_on(c.text),
            }
        }),
{
    let p = parts_of(e, reading, n, skip_learning);
    let all = joined_parts(p);
    let c = collect::candidates_for(e, reading, n, skip_learning)[i];
    lemma_parts(e, reading, n, skip_learning);
    law_script_note(c.text);
    collect::law_descriptions(e, reading, n, skip_learning, i);
    assert(c == collect::script_noted(collect::symbol_named(e.sources, all[i])));
    match c.source {
        CandidateSource::Rewriter => {
            let rules = e.sources.rules;
            let found = rules.filter(sources::for_input(reading));
            sources::law_rules_for(rules, reading);
            let x = distinct::first_place(p.variants, c.text);
            distinct::law_first_place(p.variants, c.text);
            assert forall|y: int| 0 <= y < x implies (#[trigger] found[y]).variant != c.text by {
                assert(p.variants[y].key() != c.text);
            }
            let k = lemma_first_found(rules, reading, c.text, x);
            assert(rules[k] == found[x]);
        },
        _ => {},
    }
}

proof fn lemma_first_found(rules: Seq<RuleView>, reading: Seq<char>, t: Seq<char>, x: int) -> (k: int)
    requires
        0 <= x < rules.filter(sources::for_input(reading)).len(),
        rules.filter(sources::for_input(reading))[x].variant == t,
        forall|y: int|
            0 <= y < x ==> (#[trigger] rules.filter(sources::for_input(reading))[y]).variant != t,
    ensures
        0 <= k < rules.len(),
        rules[k] == rules.filter(sources::for_input(reading))[x],
        rules[k].input == reading,
        forall|j: int| 0 <= j < k ==> (#[trigger] rules[j]).input != reading || rules[j].variant != t,
    decreases rules.len(),
{
    reveal(Seq::filter);
    let f = sources::for_input(reading);
    let front = rules.drop_last();
    let before = front.filter(f);
    let found = rules.filter(f);
    if x < before.len() {
        assert(before[x] == found[x]);
        assert forall|y: int| 0 <= y < x implies (#[trigger] before[y]).variant != t by {
            assert(before[y] == found[y]);
        }
        let k = lemma_first_found(front, reading, t, x);
        assert(rules[k] == front[k]);
        assert forall|j: int| 0 <= j < k implies (#[trigger] rules[j]).input != reading
            || rules[j].variant != t by {
            assert(front[j] == rules[j]);
        }
        k
    } else {
        let k = rules.len() - 1;
        assert forall|j: int| 0 <= j < k implies (#[trigger] rules[j]).input != reading
            || rules[j].variant != t by {
            if rules[j].input == reading && rules[j].variant == t {
                assert(front[j] == rules[j]);
                assert(front.contains(rules[j]));
                lemma_filter_has(front, f, rules[j]);
                let y = choose|y: int| 0 <= y < before.len() && before[y] == rules[j];
                assert(found[y] == before[y]);
            }
        }
        k
    }
}

/// Variants are offered in the order of the table.
pub proof fn law_variants_in_order(
    e: EngineView,
    reading: Seq<char>,
    n: usize,
    skip_learning: bool,
    i: int,
    j: int,
)
    requires
        0 <= i < j < collect::candidates_for(e, reading, n, skip_learning).len(),
        collect::candidates_for(e, reading, n, skip_learning)[i].source
            == CandidateSource::Rewriter,
        collect::candidates_for(e, reading, n, skip_learning)[j].source
            == CandidateSource::Rewriter,
    ensures
        ({
            let found = e.sources.rules.filter(sources::for_input(reading));
            let list = collect::candidates_for(e, reading, n, skip_learning);
            exists|x: int, y: int|
                0 <= x < y < found.len() && (#[trigger] found[x]).variant == list[i].text && (
                #[trigger] found[y]).variant == list[j].text && forall|z: int|
                    0 <= z < y ==> (#[trigger] found[z]).variant != list[j].text
        }),
{
    let p = parts_of(e, reading, n, skip_learning);
    let all = joined_parts(p);
    let list = collect::candidates_for(e, reading, n, skip_learning);
    lemma_parts(e, reading, n, skip_learning);
    let found = e.sources.rules.filter(sources::for_input(reading));
    sources::law_rules_for(e.sources.rules, reading);
    assert(all[i].text == list[i].text && all[j].text == list[j].text);
    let x = distinct::first_place(p.variants, list[i].text);
    let y = distinct::first_place(p.variants, list[j].text);
    distinct::law_first_place(p.variants, list[j].text);
    assert forall|z: int| 0 <= z < y implies (#[trigger] found[z]).variant != list[j].text by {
        assert(p.variants[z].key() != list[j].text);
    }
    assert(found[x].variant == list[i].text);
    assert(found[y].variant == list[j].text);
}

/// Every source has its label, and only the input itself is shown without one.
pub proof fn law_label(source: CandidateSource)
    ensures
        candidate::label_of(source) == match source {
            CandidateSource::Learning => "📝 学習"@,
            CandidateSource::UserDictionary => "👤 ユーザー辞書"@,
            CandidateSource::Model => "🤖 AI"@,
            CandidateSource::Dictionary => "📚 辞書"@,
            CandidateSource::Rewriter => "🔄 変換"@,
            CandidateSource::Fallback => ""@,
        },
        candidate::shown_label(source) == if source == CandidateSource::Fallback {
            None
        } else {
            Some(candidate::label_of(source))
        },
{
    reveal_strlit("📝 学習");
    reveal_strlit("👤 ユーザー辞書");
    reveal_strlit("🤖 AI");
    reveal_strlit("📚 辞書");
    reveal_strlit("🔄 変換");
    reveal_strlit("");
}

/// A candidate is shown with its text, its own reading or else the one that was typed, its
/// description and the label of its source.
pub proof fn law_shown(list: Seq<AnnotatedView>, reading: Seq<char>)
    ensures
        candidate::shown_all(list, reading).len() == list.len(),
        forall|i: int|
            0 <= i < list.len() ==> {
                let c = #[trigger] candidate::shown_all(list, reading)[i];
                &&& c.text == list[i].text
                &&& c.description == list[i].description
                &&& c.source_label == candidate::shown_label(list[i].source)
                &&& c.reading is Some
                &&& list[i].reading is Some ==> c.reading == list[i].reading
                &&& list[i].reading is None ==> c.reading == Some(reading)
            },
{
}

/// A page of dictionary candidates has the first nine that the dictionaries have, and the
/// variants of an input are all that the table has, each with the reading and the label
/// of its source.
pub proof fn law_pages(s: SourcesView, reading: Seq<char>)
    ensures
        ({
            let hits = lookup::dict_hits(s, reading, usize::MAX as nat);
            let page = lookup::dict_page(s, reading);
            &&& page.len() == if hits.len() <= 9 {
                hits.len()
            } else {
                9
            }
            &&& forall|i: int|
                0 <= i < page.len() ==> {
                    let c = #[trigger] page[i];
                    &&& c.text == hits[i].text
                    &&& c.reading == Some(reading)
                    &&& c.source_label == Some(candidate::label_of(hits[i].source))
                    &&& c.description is None
                }
        }),
        ({
            let rules = s.rules.filter(sources::for_input(reading));
            let page = lookup::variant_page(s, reading);
            &&& page.len() == rules.len()
            &&& forall|i: int|
                0 <= i < page.len() ==> {
                    let c = #[trigger] page[i];
                    &&& c.text == rules[i].variant
                    &&& c.reading == Some(reading)
                    &&& c.source_label == Some(candidate::label_of(CandidateSource::Rewriter))
                    &&& c.description == rules[i].description
                }
        }),
{
    lookup::law_dict_limit_is_prefix(s, reading, 9, usize::MAX as nat);
    sources::law_rules_for(s.rules, reading);
}

} // verus!
