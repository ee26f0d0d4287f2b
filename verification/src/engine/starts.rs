//! What starting a conversion offers and shows, said over the sources of the candidates.
use super::borders;
use super::candidate;
use super::candidate::{AnnotatedView, CandidateSource, ListView};
use super::collect;
use super::composing;
use super::conversion;
use super::fuzzy;
use super::input_method::EngineView;
use super::model;
use super::preedit::{AttributeType, PreeditSegmentView, PreeditView};
use super::repairs;
use super::sources;
use super::sources::RequestView;
use super::state::{ActionView, InputMode, StateView};
use crate::distinct;
use crate::distinct::Keyed;
use crate::romaji::converter::RomajiView;
use vstd::prelude::*;

verus! {

/// A candidate other than the live conversion as a model gave it.
pub open spec fn not_live(live: Seq<char>) -> spec_fn(AnnotatedView) -> bool {
    |c: AnnotatedView| !(c.source == CandidateSource::Model && c.text == live)
}

/// A candidate with a text that is not among these.
pub open spec fn new_to(others: Seq<AnnotatedView>) -> spec_fn(AnnotatedView) -> bool {
    |c: AnnotatedView|
        forall|i: int| 0 <= i < others.len() ==> (#[trigger] others[i]).text != c.text
}

proof fn lemma_filter_single(x: AnnotatedView, q: spec_fn(AnnotatedView) -> bool)
    ensures
        seq![x].filter(q) == if q(x) {
            seq![x]
        } else {
            Seq::empty()
        },
{
    reveal(Seq::filter);
    let one = seq![x];
    assert(one.drop_last() =~= Seq::<AnnotatedView>::empty());
    assert(one.drop_last().filter(q) =~= Seq::<AnnotatedView>::empty());
    assert(one.filter(q) =~= if q(x) {
        one
    } else {
        Seq::empty()
    });
}

proof fn lemma_filter_one(
    a: Seq<AnnotatedView>,
    x: AnnotatedView,
    b: Seq<AnnotatedView>,
    q: spec_fn(AnnotatedView) -> bool,
)
    requires
        !q(x),
    ensures
        (a + seq![x] + b).filter(q) == a.filter(q) + b.filter(q),
{
    Seq::filter_distributes_over_add(a + seq![x], b, q);
    Seq::filter_distributes_over_add(a, seq![x], q);
    lemma_filter_single(x, q);
    assert(a.filter(q) + Seq::<AnnotatedView>::empty() =~= a.filter(q));
}

/// A candidate in front that the second filter drops makes no difference.
proof fn lemma_front_dropped(
    x: AnnotatedView,
    list: Seq<AnnotatedView>,
    p: spec_fn(AnnotatedView) -> bool,
    q: spec_fn(AnnotatedView) -> bool,
)
    requires
        !q(x),
    ensures
        (seq![x] + list).filter(p).filter(q) == list.filter(p).filter(q),
{
    Seq::filter_distributes_over_add(seq![x], list, p);
    lemma_filter_single(x, p);
    let kept = list.filter(p);
    if p(x) {
        Seq::filter_distributes_over_add(seq![x], kept, q);
        lemma_filter_single(x, q);
        assert(Seq::<AnnotatedView>::empty() + kept.filter(q) =~= kept.filter(q));
    } else {
        assert(Seq::<AnnotatedView>::empty() + kept =~= kept);
    }
}

proof fn lemma_model_place(list: Seq<AnnotatedView>, t: Seq<char>)
    ensures
        0 <= conversion::model_place(list, t) <= list.len(),
        0 <= conversion::first_model(list) <= conversion::model_place(list, t),
        conversion::model_place(list, t) < list.len() ==> !not_live(t)(
            list[conversion::model_place(list, t)],
        ),
        conversion::model_place(list, t) == list.len() ==> forall|i: int|
            0 <= i < list.len() ==> not_live(t)(#[trigger] list[i]),
    decreases list.len(),
{
    if list.len() > 0 {
        let rest = list.drop_first();
        lemma_model_place(rest, t);
        if not_live(t)(list[0]) && conversion::model_place(rest, t) == rest.len() {
            assert forall|i: int| 0 <= i < list.len() implies not_live(t)(#[trigger] list[i]) by {
                if i > 0 {
                    assert(list[i] == rest[i - 1]);
                }
            }
        }
    }
}

proof fn lemma_first_model(list: Seq<AnnotatedView>)
    ensures
        0 <= conversion::first_model(list) <= list.len(),
        conversion::first_model(list) < list.len() ==> list[conversion::first_model(list)].source
            == CandidateSource::Model,
    decreases list.len(),
{
    if list.len() > 0 {
        lemma_first_model(list.drop_first());
    }
}

/// Bringing the live conversion forward leaves all other candidates in their order, and
/// loses none. Without a live conversion other than the reading nothing moves.
pub proof fn law_others_keep_their_order(
    list: Seq<AnnotatedView>,
    live: Seq<char>,
    reading: Seq<char>,
)
    ensures
        conversion::live_first(list, live, reading).filter(not_live(live)) == list.filter(
            not_live(live),
        ),
        conversion::live_first(list, live, reading).len() == list.len(),
        conversion::live_first(list, live, reading).to_multiset() == list.to_multiset(),
        live.len() == 0 || live == reading ==> conversion::live_first(list, live, reading) == list,
{
    let all = conversion::live_first(list, live, reading);
    let p = conversion::model_place(list, live);
    let first = conversion::first_model(list);
    lemma_model_place(list, live);
    if live.len() > 0 && live != reading && p < list.len() {
        let x = list[p];
        let q = not_live(live);
        let a = list.take(p);
        let b = list.skip(p + 1);
        assert(list =~= a + seq![x] + b);
        lemma_filter_one(a, x, b, q);
        let rest = list.remove(p);
        assert(rest =~= a + b);
        Seq::filter_distributes_over_add(a, b, q);
        let c = rest.take(first);
        let d = rest.skip(first);
        assert(all =~= c + seq![x] + d);
        lemma_filter_one(c, x, d, q);
        assert(rest =~= c + d);
        Seq::filter_distributes_over_add(c, d, q);
        vstd::seq_lib::lemma_multiset_commutative(a + seq![x], b);
        vstd::seq_lib::lemma_multiset_commutative(a, seq![x]);
        vstd::seq_lib::lemma_multiset_commutative(a, b);
        vstd::seq_lib::lemma_multiset_commutative(c + seq![x], d);
        vstd::seq_lib::lemma_multiset_commutative(c, seq![x]);
        vstd::seq_lib::lemma_multiset_commutative(c, d);
        let one = seq![x].to_multiset();
        assert(list.to_multiset() =~= a.to_multiset().add(one).add(b.to_multiset()));
        assert(all.to_multiset() =~= c.to_multiset().add(one).add(d.to_multiset()));
        assert(a.to_multiset().add(b.to_multiset()) =~= c.to_multiset().add(d.to_multiset()));
        assert(list.to_multiset() =~= a.to_multiset().add(b.to_multiset()).add(one));
        assert(all.to_multiset() =~= c.to_multiset().add(d.to_multiset()).add(one));
    }
}

/// What stands before the first candidate that a model gave stays where it is.
pub proof fn law_others_stay_in_front(
    list: Seq<AnnotatedView>,
    live: Seq<char>,
    reading: Seq<char>,
    j: int,
)
    requires
        0 <= j < list.len(),
        forall|i: int| 0 <= i <= j ==> (#[trigger] list[i]).source != CandidateSource::Model,
    ensures
        conversion::live_first(list, live, reading)[j] == list[j],
{
    let first = conversion::first_model(list);
    lemma_model_place(list, live);
    lemma_first_model(list);
    if first <= j {
        assert(list[first].source != CandidateSource::Model);
    }
}

/// Of the normal candidates those stay whose text is not among the repairs, in order.
pub proof fn law_not_among(list: Seq<AnnotatedView>, others: Seq<AnnotatedView>)
    ensures
        conversion::not_among(list, others) == list.filter(new_to(others)),
    decreases list.len(),
{
    reveal(Seq::filter);
    if list.len() > 0 {
        law_not_among(list.drop_last(), others);
        let t = list.last().text;
        if distinct::has_key(others, t) {
            let i = choose|i: int| 0 <= i < others.len() && (#[trigger] others[i]).key() == t;
            assert(others[i].text == t);
        } else {
            assert forall|i: int| 0 <= i < others.len() implies (#[trigger] others[i]).text != t by {
                if others[i].text == t {
                    assert(others[i].key() == t);
                }
            }
        }
    }
    assert(conversion::not_among(list, others) =~= list.filter(new_to(others)));
}

/// The engine as a conversion begins.
pub open spec fn begun(f: EngineView) -> EngineView {
    EngineView {
        live: Seq::empty(),
        romaji: RomajiView { output: Seq::empty(), pending: Seq::empty() },
        cursor: 0,
        ..f
    }
}

/// The text that was typed holds a letter `a`-`z` or `A`-`Z`.
pub open spec fn holds_letter(t: Seq<char>) -> bool {
    exists|i: int|
        0 <= i < t.len() && (('a' <= #[trigger] t[i] && t[i] <= 'z') || ('A' <= t[i] && t[i] <= 'Z'))
}

proof fn lemma_holds_letter(t: Seq<char>)
    ensures
        crate::text::has_ascii_letter(t) <==> holds_letter(t),
{
    if crate::text::has_ascii_letter(t) {
        let i = choose|i: int| 0 <= i < t.len() && crate::text::is_ascii_letter(#[trigger] t[i]);
        assert(('a' <= t[i] && t[i] <= 'z') || ('A' <= t[i] && t[i] <= 'Z'));
    }
    if holds_letter(t) {
        let i = choose|i: int|
            0 <= i < t.len() && (('a' <= #[trigger] t[i] && t[i] <= 'z') || ('A' <= t[i] && t[i]
                <= 'Z'));
        assert(crate::text::is_ascii_letter(t[i]));
    }
}

proof fn lemma_repairs_some(e: EngineView)
    ensures
        fuzzy::fuzzy_repairs(e).len() > 0 <==> fuzzy::typed_hypotheses(e).len() > 0,
{
    let hyps = fuzzy::typed_hypotheses(e);
    fuzzy::law_fuzzy_repairs(e);
    if hyps.len() > 0 {
        assert(distinct::has_key(fuzzy::fuzzy_repairs(e), hyps[0].reading));
    }
    let list = fuzzy::fuzzy_repairs(e);
    if list.len() > 0 {
        let k = list[0].reading->0;
        assert(distinct::has_key(hyps, k));
    }
}

/// Slips are repaired in this conversion: the text holds letters and some repair of them
/// leads to kana, the repair is switched on, and what was learned is not left out.
pub open spec fn repairs_letters(f: EngineView, skip_learning: bool) -> bool {
    !skip_learning && f.sources.config.fuzzy_repair_enabled && holds_letter(f.text)
        && fuzzy::typed_hypotheses(f).len() > 0
}

/// Where slips are repaired, the repairs are what is offered, and nothing else is.
pub proof fn law_repairs_are_offered(e: EngineView, skip_learning: bool)
    requires
        repairs_letters(composing::flushed(e), skip_learning),
    ensures
        ({
            let f = composing::flushed(e);
            let list = conversion::offered(e, skip_learning);
            &&& list.len() > 0
            &&& list.to_multiset() == fuzzy::fuzzy_repairs(f).to_multiset()
            &&& list.filter(not_live(f.live)) == fuzzy::fuzzy_repairs(f).filter(not_live(f.live))
        }),
{
    let f = composing::flushed(e);
    lemma_holds_letter(f.text);
    lemma_repairs_some(f);
    law_others_keep_their_order(fuzzy::fuzzy_repairs(f), f.live, f.text);
}

proof fn lemma_same_repairs(e: EngineView, list: Seq<AnnotatedView>, live: Seq<char>, t: Seq<char>)
    ensures
        fuzzy::kana_repairs(e, conversion::with_live(list, live, t)) == fuzzy::kana_repairs(
            e,
            list,
        ),
{
    let all = conversion::with_live(list, live, t);
    if fuzzy::has_meaningful(list) {
        let i = choose|i: int| 0 <= i < list.len() && fuzzy::is_meaningful((#[trigger] list[i]).source);
        if all.len() > list.len() {
            assert(all[i + 1] == list[i]);
        }
    }
    if fuzzy::has_meaningful(all) && all.len() > list.len() {
        let i = choose|i: int| 0 <= i < all.len() && fuzzy::is_meaningful((#[trigger] all[i]).source);
        assert(all[i] == list[i - 1]);
    }
    assert(fuzzy::has_meaningful(list) == fuzzy::has_meaningful(all));
}

/// Where no letters are repaired, the repairs of the kana reading come first, unless what
/// was learned is left out, and then every normal candidate whose text is new, in order.
/// The live conversion is among them.
pub proof fn law_normal_candidates_are_offered(e: EngineView, skip_learning: bool)
    requires
        !repairs_letters(composing::flushed(e), skip_learning),
    ensures
        ({
            let f = composing::flushed(e);
            let g = begun(f);
            let n = f.sources.config.num_candidates;
            let normal = collect::candidates_for(g, f.text, n, skip_learning);
            let repairs = kana_repairs_offered(g, normal, skip_learning);
            let list = conversion::offered(e, skip_learning);
            &&& list.filter(not_live(f.live)) == repairs.filter(not_live(f.live)) + normal.filter(
                new_to(repairs),
            ).filter(not_live(f.live))
            &&& f.live.len() > 0 && f.live != f.text ==> distinct::has_key(list, f.live)
            &&& f.live.len() == 0 || f.live == f.text ==> list == repairs + normal.filter(
                new_to(repairs),
            )
        }),
{
    let f = composing::flushed(e);
    let g = begun(f);
    lemma_not_repaired(e, skip_learning);
    let n = f.sources.config.num_candidates;
    let normal = collect::candidates_for(g, f.text, n, skip_learning);
    let with = conversion::with_live(normal, f.live, f.text);
    let repairs = kana_repairs_offered(g, normal, skip_learning);
    lemma_merged(g, f.live, skip_learning);
    let rest = with.filter(new_to(repairs));
    let merged = repairs + rest;
    let q = not_live(f.live);
    law_others_keep_their_order(merged, f.live, f.text);
    Seq::filter_distributes_over_add(repairs, rest, q);
    if with != normal {
        lemma_front_dropped(
            AnnotatedView::plain(f.live, CandidateSource::Model),
            normal,
            new_to(repairs),
            q,
        );
    }
    if f.live.len() > 0 && f.live != f.text {
        conversion::law_live_conversion_is_kept(g, f.live, skip_learning);
    }
}

/// The repairs of a kana reading that a conversion offers.
pub open spec fn kana_repairs_offered(
    g: EngineView,
    normal: Seq<AnnotatedView>,
    skip_learning: bool,
) -> Seq<AnnotatedView> {
    if skip_learning {
        Seq::empty()
    } else {
        fuzzy::kana_repairs(
            collect::asked(g, g.text, g.sources.config.num_candidates),
            normal,
        )
    }
}

proof fn lemma_not_repaired(e: EngineView, skip_learning: bool)
    requires
        !repairs_letters(composing::flushed(e), skip_learning),
    ensures
        conversion::offered(e, skip_learning) == conversion::live_first(
            conversion::merged_candidates(
                begun(composing::flushed(e)),
                composing::flushed(e).live,
                skip_learning,
            ),
            composing::flushed(e).live,
            composing::flushed(e).text,
        ),
        conversion::offered(e, skip_learning) == conversion::all_candidates(
            begun(composing::flushed(e)),
            composing::flushed(e).live,
            skip_learning,
        ),
{
    let f = composing::flushed(e);
    assert(begun(f) =~= conversion::conversion_begun(f));
    lemma_holds_letter(f.text);
    lemma_repairs_some(f);
}

proof fn lemma_merged(g: EngineView, live: Seq<char>, skip_learning: bool)
    ensures
        ({
            let n = g.sources.config.num_candidates;
            let normal = collect::candidates_for(g, g.text, n, skip_learning);
            let repairs = kana_repairs_offered(g, normal, skip_learning);
            conversion::merged_candidates(g, live, skip_learning) == repairs
                + conversion::with_live(normal, live, g.text).filter(new_to(repairs))
        }),
{
    let n = g.sources.config.num_candidates;
    let normal = collect::candidates_for(g, g.text, n, skip_learning);
    let with = conversion::with_live(normal, live, g.text);
    let repairs = kana_repairs_offered(g, normal, skip_learning);
    lemma_same_repairs(collect::asked(g, g.text, n), normal, live, g.text);
    law_not_among(with, repairs);
    if repairs.len() == 0 {
        lemma_filter_all(with, new_to(repairs));
        assert(repairs + with =~= with);
    }
}

/// A live conversion that no source offers stands before all normal candidates: nothing
/// but repairs of the reading comes before it.
pub proof fn law_live_conversion_leads(e: EngineView, skip_learning: bool, i: int, j: int)
    requires
        !repairs_letters(composing::flushed(e), skip_learning),
        composing::flushed(e).live.len() > 0,
        composing::flushed(e).live != composing::flushed(e).text,
        !distinct::has_key(
            collect::candidates_for(
                begun(composing::flushed(e)),
                composing::flushed(e).text,
                composing::flushed(e).sources.config.num_candidates,
                skip_learning,
            ),
            composing::flushed(e).live,
        ),
        0 <= j < i < conversion::offered(e, skip_learning).len(),
        conversion::offered(e, skip_learning)[i].text == composing::flushed(e).live,
    ensures
        ({
            let f = composing::flushed(e);
            let g = begun(f);
            let n = f.sources.config.num_candidates;
            let normal = collect::candidates_for(g, f.text, n, skip_learning);
            distinct::has_key(
                kana_repairs_offered(g, normal, skip_learning),
                conversion::offered(e, skip_learning)[j].text,
            )
        }),
{
    let f = composing::flushed(e);
    let g = begun(f);
    lemma_not_repaired(e, skip_learning);
    lemma_merged(g, f.live, skip_learning);
    conversion::law_conversion_repeats_nothing(g, f.live, skip_learning);
    conversion::law_merged_repeats_nothing(g, f.live, skip_learning);
    let n = f.sources.config.num_candidates;
    let normal = collect::candidates_for(g, f.text, n, skip_learning);
    let repairs = kana_repairs_offered(g, normal, skip_learning);
    let x = AnnotatedView::plain(f.live, CandidateSource::Model);
    if !distinct::has_key(repairs, f.live) {
        lemma_front_stays(x, normal, repairs);
    }
    lemma_leads(repairs, (seq![x] + normal).filter(new_to(repairs)), f.live, f.text, i, j);
}

/// The live conversion stands among the repairs or right behind them.
proof fn lemma_leads(
    repairs: Seq<AnnotatedView>,
    rest: Seq<AnnotatedView>,
    live: Seq<char>,
    reading: Seq<char>,
    i: int,
    j: int,
)
    requires
        distinct::all_distinct(repairs + rest),
        distinct::all_distinct(conversion::live_first(repairs + rest, live, reading)),
        !distinct::has_key(repairs, live) ==> rest.len() > 0 && rest[0].text == live,
        live.len() > 0,
        live != reading,
        0 <= j < i < conversion::live_first(repairs + rest, live, reading).len(),
        conversion::live_first(repairs + rest, live, reading)[i].text == live,
    ensures
        distinct::has_key(
            repairs,
            conversion::live_first(repairs + rest, live, reading)[j].text,
        ),
{
    let merged = repairs + rest;
    let all = conversion::live_first(merged, live, reading);
    let p = conversion::model_place(merged, live);
    let first = conversion::first_model(merged);
    lemma_model_place(merged, live);
    let q = if distinct::has_key(repairs, live) {
        choose|q: int| 0 <= q < repairs.len() && (#[trigger] repairs[q]).key() == live
    } else {
        repairs.len() as int
    };
    assert(merged[q].key() == live);
    assert(all[i].key() == live);
    if p < merged.len() {
        assert(merged[p].key() == live);
        assert(p == q);
        assert(all[first] == merged[p]);
        assert(all[first].key() == live);
        assert(i == first);
        assert(all[j] == merged[j]);
    } else {
        assert(all == merged);
        assert(i == q);
    }
    assert(merged[j] == repairs[j]);
    assert(repairs[j].key() == all[j].text);
}

proof fn lemma_front_stays(x: AnnotatedView, list: Seq<AnnotatedView>, others: Seq<AnnotatedView>)
    requires
        !distinct::has_key(others, x.text),
    ensures
        (seq![x] + list).filter(new_to(others)).len() > 0,
        (seq![x] + list).filter(new_to(others))[0] == x,
{
    let q = new_to(others);
    assert(q(x)) by {
        assert forall|i: int| 0 <= i < others.len() implies (#[trigger] others[i]).text != x.text by {
            if others[i].text == x.text {
                assert(others[i].key() == x.text);
            }
        }
    }
    Seq::filter_distributes_over_add(seq![x], list, q);
    lemma_filter_single(x, q);
}

proof fn lemma_filter_all(list: Seq<AnnotatedView>, q: spec_fn(AnnotatedView) -> bool)
    requires
        forall|i: int| 0 <= i < list.len() ==> q(#[trigger] list[i]),
    ensures
        list.filter(q) == list,
    decreases list.len(),
{
    reveal(Seq::filter);
    if list.len() > 0 {
        assert forall|i: int| 0 <= i < list.drop_last().len() implies q(
            #[trigger] list.drop_last()[i],
        ) by {
            assert(list[i] == list.drop_last()[i]);
        }
        lemma_filter_all(list.drop_last(), q);
        assert(q(list[list.len() - 1]));
    }
    assert(list.filter(q) =~= list);
}

/// A conversion that is started is of the whole text, as one segment, with the candidates
/// that are offered. The first is selected, and the preedit shows it, highlighted, with
/// the caret behind it. Nothing is pending any more; without candidates the text is shown
/// as it is.
pub proof fn law_conversion_is_shown(e: EngineView, skip_learning: bool)
    ensures
        ({
            let f = composing::flushed(e);
            let list = conversion::offered(e, skip_learning);
            let (g, r) = conversion::started(e, skip_learning);
            &&& g == EngineView {
                segments: g.segments,
                current: g.current,
                state: g.state,
                model: g.model,
                ..begun(f)
            }
            &&& f.text.len() > 0 && list.len() > 0 ==> {
                &&& g.segments.len() == 1
                &&& g.current == 0
                &&& g.segments[0].reading == f.text
                &&& g.segments[0].candidates.cursor == 0
                &&& g.segments[0].candidates.candidates.len() == list.len()
                &&& forall|i: int|
                    0 <= i < list.len() ==> {
                        let c = #[trigger] g.segments[0].candidates.candidates[i];
                        &&& c.text == list[i].text
                        &&& c.description == list[i].description
                        &&& c.source_label == candidate::shown_label(list[i].source)
                        &&& c.reading == if list[i].reading is Some {
                            list[i].reading
                        } else {
                            Some(f.text)
                        }
                    }
                &&& g.state == (StateView::Conversion {
                    preedit: PreeditView {
                        segments: seq![
                            PreeditSegmentView {
                                text: list[0].text,
                                attribute: AttributeType::Highlight,
                            },
                        ],
                        caret: list[0].text.len() as int,
                    },
                    candidates: g.segments[0].candidates,
                })
                &&& borders::reports_state(r, g)
            }
            &&& f.text.len() > 0 && list.len() == 0 ==> {
                let p = PreeditView {
                    segments: seq![
                        PreeditSegmentView { text: f.text, attribute: AttributeType::Underline },
                    ],
                    caret: f.text.len() as int,
                };
                &&& g.state == (StateView::Composing { preedit: p, romaji_buffer: Seq::empty() })
                &&& r.consumed
                &&& r.actions == seq![ActionView::UpdatePreedit(p)]
            }
            &&& f.text.len() == 0 ==> g.segments == f.segments && g.state == f.state && r.consumed
                && r.actions.len() == 0
        }),
{
    let f = composing::flushed(e);
    let list = conversion::offered(e, skip_learning);
    if conversion::wants_repair(f, skip_learning) {
        law_others_keep_their_order(fuzzy::fuzzy_repairs(f), f.live, f.text);
        if f.text.len() == 0 {
            assert(!crate::text::has_ascii_letter(f.text));
        }
    }
}

/// Finishing what is pending puts a lone `n` into the text as `ん` and other letters as
/// they are, at the caret, which ends up behind them.
pub proof fn law_pending_is_put_in(e: EngineView)
    requires
        0 <= e.cursor <= e.text.len(),
    ensures
        ({
            let f = composing::flushed(e);
            let added = if e.romaji.pending.len() == 1 && e.romaji.pending[0] == 'n' {
                seq!['ん']
            } else {
                e.romaji.pending
            };
            &&& f == EngineView {
                text: e.text.subrange(0, e.cursor) + added + e.text.subrange(
                    e.cursor,
                    e.text.len() as int,
                ),
                cursor: e.cursor + added.len(),
                romaji: RomajiView { output: e.romaji.output + added, pending: Seq::empty() },
                ..e
            }
        }),
{
    let p = e.romaji.pending;
    let r = e.romaji.flushed();
    let n = e.romaji.output.len() as int;
    if p.len() == 1 && p[0] == 'n' {
        assert(p =~= seq!['n']);
        assert(r.output =~= e.romaji.output + seq!['ん']);
        assert(r.output.skip(n) =~= seq!['ん']);
    } else {
        if p =~= seq!['n'] {
            assert(p.len() == 1);
        }
        assert(r.output.skip(n) =~= p);
    }
    assert(e.text.subrange(0, e.cursor) =~= e.text.take(e.cursor));
    assert(e.text.subrange(e.cursor, e.text.len() as int) =~= e.text.skip(e.cursor));
}

/// The text with `t` put in at the caret.
pub open spec fn put_in(text: Seq<char>, caret: int, t: Seq<char>) -> Seq<char> {
    text.subrange(0, caret) + t + text.subrange(caret, text.len() as int)
}

/// A character that is typed goes through the romaji converter in hiragana mode and into
/// the text as it is in the others, at the caret, which moves behind what comes out. An
/// upper case letter leads from hiragana to alphabet mode, and what was pending goes into
/// the text first. The preedit shows the text with what is pending at the caret.
pub proof fn law_input_is_continued(e: EngineView, c: char)
    requires
        0 <= e.cursor <= e.text.len(),
    ensures
        ({
            let upper = e.mode == InputMode::Hiragana && 'A' <= c <= 'Z';
            let g = if upper {
                composing::flushed(e)
            } else {
                e
            };
            let f = composing::input_continued(e, c);
            let pushed = g.romaji.pushed(c);
            let added = if e.mode == InputMode::Hiragana && !upper {
                pushed.output.subrange(g.romaji.output.len() as int, pushed.output.len() as int)
            } else {
                seq![c]
            };
            &&& f == EngineView {
                text: put_in(g.text, g.cursor, added),
                cursor: g.cursor + added.len(),
                romaji: if e.mode == InputMode::Hiragana && !upper {
                    pushed
                } else {
                    g.romaji
                },
                mode: if upper {
                    InputMode::Alphabet
                } else {
                    e.mode
                },
                state: StateView::Composing {
                    preedit: PreeditView {
                        segments: seq![
                            PreeditSegmentView {
                                text: put_in(f.text, f.cursor, f.romaji.pending),
                                attribute: AttributeType::Underline,
                            },
                        ],
                        caret: f.cursor + f.romaji.pending.len(),
                    },
                    romaji_buffer: f.romaji.pending,
                },
                ..g
            }
        }),
{
    law_pending_is_put_in(e);
    let upper = e.mode == InputMode::Hiragana && 'A' <= c <= 'Z';
    let g = if upper {
        composing::flushed(e)
    } else {
        e
    };
    let f = composing::input_continued(e, c);
    let pushed = g.romaji.pushed(c);
    crate::romaji::converter::law_push_extends_output(g.romaji, c);
    let n = g.romaji.output.len() as int;
    assert(pushed.output.skip(n) =~= pushed.output.subrange(n, pushed.output.len() as int));
    assert(g.text.take(g.cursor) =~= g.text.subrange(0, g.cursor));
    assert(g.text.skip(g.cursor) =~= g.text.subrange(g.cursor, g.text.len() as int));
    assert(f.text.take(f.cursor) =~= f.text.subrange(0, f.cursor));
    assert(f.text.skip(f.cursor) =~= f.text.subrange(f.cursor, f.text.len() as int));
}

/// The number that a text of decimal digits stands for.
pub open spec fn number(t: Seq<char>) -> int
    decreases t.len(),
{
    if t.len() == 0 {
        0
    } else {
        10 * number(t.drop_last()) + (t.last() as int - '0' as int)
    }
}

/// A number is written with decimal digits that stand for it, without zeros in front.
pub proof fn law_decimal(n: nat)
    ensures
        number(crate::text::decimal(n)) == n,
        crate::text::decimal(n).len() > 0,
        forall|i: int|
            0 <= i < crate::text::decimal(n).len() ==> '0' <= #[trigger] crate::text::decimal(n)[i]
                && crate::text::decimal(n)[i] <= '9',
        n > 0 ==> crate::text::decimal(n)[0] != '0',
    decreases n,
{
    let all = crate::text::decimal(n);
    let digit = (('0' as u32 + n % 10) as u32) as char;
    if n < 10 {
        assert(all.drop_last() =~= Seq::empty());
        assert(number(all.drop_last()) == 0);
    } else {
        law_decimal(n / 10);
        assert(all.drop_last() =~= crate::text::decimal(n / 10));
    }
}

/// The auxiliary text names the reading, the page of nine that the selected candidate is
/// on and how many pages there are, and where the candidate comes from.
pub proof fn law_aux_text(reading: Seq<char>, l: ListView)
    requires
        l.wf(),
        l.candidates.len() > 0,
    ensures
        ({
            let n = l.candidates.len() as int;
            let label = l.candidates[l.cursor].source_label;
            conversion::aux_text(reading, l) == reading + " ["@ + crate::text::decimal(
                (l.cursor / 9 + 1) as nat,
            ) + "/"@ + crate::text::decimal(((n + 8) / 9) as nat) + "]"@ + if label is Some {
                " "@ + label->0
            } else {
                Seq::empty()
            }
        }),
{
    let n = l.candidates.len() as int;
    assert(conversion::page_count(l) == (n + 8) / 9);
    assert(conversion::page_number(l) == l.cursor / 9 + 1);
    let page = reading + " ["@ + crate::text::decimal((l.cursor / 9 + 1) as nat) + "/"@
        + crate::text::decimal(((n + 8) / 9) as nat) + "]"@;
    let label = l.candidates[l.cursor].source_label;
    if label is Some {
        assert(page + " "@ + label->0 =~= page + (" "@ + label->0));
    } else {
        assert(page + Seq::<char>::empty() =~= page);
    }
}

/// Starting a conversion forgets no open question to the models. Where letters are
/// repaired, the questions are those of the repairs; otherwise a reading in kana that a
/// main model alone has no answer for is a new question, and the main model is wanted if
/// it is not there.
pub proof fn law_start_asks_the_models(e: EngineView, skip_learning: bool)
    requires
        composing::flushed(e).text.len() > 0,
    ensures
        ({
            let f = composing::flushed(e);
            let g = conversion::started(e, skip_learning).0;
            let n = f.sources.config.num_candidates;
            let context = model::api_context(f.sources);
            &&& repairs::keeps_questions(e.model, g.model)
            &&& repairs_letters(f, skip_learning) ==> g.model == fuzzy::after_fuzzy_repairs(f).model
            &&& !repairs_letters(f, skip_learning) ==> {
                &&& e.sources.kanji is None ==> g.model.wanted
                &&& model::main_alone(f.sources, f.model.use_light, n) && crate::text::has_kana(
                    f.text,
                ) && model::has_no_answer(
                    f.sources.kanji->0,
                    crate::text::katakana(f.text),
                    context,
                    model::asked_of_main(f.sources, n),
                ) ==> g.model.requests.contains(
                    RequestView {
                        katakana: crate::text::katakana(f.text),
                        context,
                        num_candidates: model::asked_of_main(f.sources, n),
                        light: false,
                    },
                )
            }
        }),
{
    let f = composing::flushed(e);
    let h = begun(f);
    assert(h =~= conversion::conversion_begun(f));
    lemma_holds_letter(f.text);
    lemma_repairs_some(f);
    let n = f.sources.config.num_candidates;
    let context = model::api_context(f.sources);
    let k = crate::text::katakana(f.text);
    let g = conversion::started(e, skip_learning).0;
    repairs::law_repairs_ask_the_models(f, Seq::empty(), 0);
    if !repairs_letters(f, skip_learning) {
        let asked = collect::asked(h, f.text, n);
        let normal = conversion::normal_candidates(h, f.live, skip_learning);
        repairs::law_conversion_asks_the_models(h, f.text, n);
        repairs::law_repairs_ask_the_models(asked, normal, 0);
        let a = e.model.requests.len() as int;
        let b = asked.model.requests.len() as int;
        if !skip_learning {
            let last = fuzzy::after_kana_repairs(asked, normal).model.requests;
            assert(last.subrange(0, a) =~= last.subrange(0, b).subrange(0, a));
        }
        if model::main_alone(f.sources, f.model.use_light, n) && crate::text::has_kana(f.text)
            && model::has_no_answer(
            f.sources.kanji->0,
            k,
            context,
            model::asked_of_main(f.sources, n),
        ) {
            sources::law_answer_to(
                f.sources.kanji->0.answers,
                k,
                context,
                model::asked_of_main(f.sources, n),
            );
            let q = RequestView {
                katakana: k,
                context,
                num_candidates: model::asked_of_main(f.sources, n),
                light: false,
            };
            assert(asked.model.requests =~= e.model.requests.push(q));
            assert(asked.model.requests[a] == q);
            assert(g.model.requests.subrange(0, b)[a] == g.model.requests[a]);
        }
    }
}

} // verus!
