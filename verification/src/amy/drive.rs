//! Driving AMY along a timeline, and the ledger that shows that no note is left
//! sounding.

use crate::amy::room::MAX_OSCS;
use crate::amy_wire;
use crate::amy_wire::{degrees_to_amy_events, AmyVoiceCapacityError, VoiceEvent};
use crate::collections;
use crate::collections::{SortedMap, SortedSet};
use crate::music::facets::Envelope;
use crate::music::tuning::{TunedDegree, TunedPeriodicPitch, Tuning, TuningView};
use crate::text;
use vstd::prelude::*;
use vstd::string::StrSliceExecFns;

verus! {

/// What a wire message says: which oscillator, and whether it starts to sound.
pub open spec fn parsed(message: Seq<char>) -> Option<(u16, bool)> {
    let rest = message.subrange(1, message.len() as int);
    let digits = rest.subrange(0, text::digits_at_front(rest) as int);
    if message.len() == 0 || message[0] != 'v' || digits.len() == 0 || text::number_of(digits)
        > u16::MAX {
        None
    } else {
        Some((text::number_of(digits) as u16, ends_on(message)))
    }
}

/// Whether a message ends with a note-on.
pub open spec fn ends_on(message: Seq<char>) -> bool {
    let n = message.len() as int;
    n >= 2 && message[n - 2] == 'l' && message[n - 1] == '1'
}

proof fn lemma_front_bound(s: Seq<char>)
    ensures
        text::digits_at_front(s) <= s.len(),
        forall|i: int|
            0 <= i < text::digits_at_front(s) ==> text::is_digit(#[trigger] s[i]),
        text::digits_at_front(s) < s.len() ==> !text::is_digit(
            s[text::digits_at_front(s) as int],
        ),
    decreases s.len(),
{
    if s.len() > 0 && text::is_digit(s[0]) {
        let rest = s.drop_first();
        lemma_front_bound(rest);
        assert forall|i: int| 0 <= i < text::digits_at_front(s) implies text::is_digit(
            #[trigger] s[i],
        ) by {
            if i > 0 {
                assert(rest[i - 1] == s[i]);
            }
        }
        let k = text::digits_at_front(rest) as int;
        if k < rest.len() {
            assert(rest[k] == s[k + 1]);
        }
    }
}

/// A number of more digits is not smaller.
proof fn lemma_number_grows(s: Seq<char>, i: int)
    requires
        0 <= i <= s.len(),
        forall|k: int| 0 <= k < s.len() ==> text::is_digit(#[trigger] s[k]),
    ensures
        text::number_of(s.subrange(0, i)) <= text::number_of(s),
    decreases s.len() - i,
{
    if i < s.len() {
        lemma_number_grows(s, i + 1);
        let (a, b) = (s.subrange(0, i), s.subrange(0, i + 1));
        assert(b.drop_last() =~= a);
        assert(text::is_digit(b.last()));
    } else {
        assert(s.subrange(0, i) =~= s);
    }
}

/// Which oscillator a wire message addresses, and whether it starts to sound:
/// `v8n63.097l1` does, `v8l0` does not. `None` for what is no such message.
pub fn parse_event(message: &str) -> (event: Option<(u16, bool)>)
    ensures
        event == parsed(message@),
{
    let len: usize = message.unicode_len();
    if len == 0 || message.get_char(0) != 'v' {
        return None;
    }
    let ghost rest = message@.subrange(1, message@.len() as int);
    let ghost count = text::digits_at_front(rest);
    proof {
        lemma_front_bound(rest);
        assert(rest.subrange(0, 0).len() == 0);
    }
    let mut i: usize = 1;
    let mut number: u32 = 0;
    let mut end: bool = false;
    while i < len && !end
        invariant
            1 <= i <= len,
            len == message@.len(),
            message@[0] == 'v',
            rest == message@.subrange(1, message@.len() as int),
            count == text::digits_at_front(rest),
            count <= rest.len(),
            i - 1 <= count,
            end ==> i - 1 == count,
            number <= u16::MAX,
            number == text::number_of(rest.subrange(0, i - 1)),
            forall|k: int| 0 <= k < count ==> text::is_digit(#[trigger] rest[k]),
            count < rest.len() ==> !text::is_digit(rest[count as int]),
        decreases len - i, (if end {
            0nat
        } else {
            1nat
        }),
    {
        let c: char = message.get_char(i);
        assert(c == rest[i - 1]);
        if c < '0' || c > '9' {
            end = true;
        } else {
            proof {
                let next = rest.subrange(0, i as int);
                assert(next.drop_last() =~= rest.subrange(0, i - 1));
                assert(i <= count);
            }
            let digit: u32 = c as u32 - '0' as u32;
            number = number * 10 + digit;
            i = i + 1;
            if number > u16::MAX as u32 {
                proof {
                    let digits = rest.subrange(0, count as int);
                    lemma_number_grows(digits, i - 1);
                    assert(digits.subrange(0, i - 1) =~= rest.subrange(0, i - 1));
                }
                return None;
            }
        }
    }
    assert(i - 1 == count);
    if i == 1 {
        return None;
    }
    let on: bool = len >= 2 && message.get_char(len - 2) == 'l' && message.get_char(len - 1)
        == '1';
    Some((number as u16, on))
}

/// A message that was rendered is understood.
pub proof fn law_rendered_events_are_understood(
    event: VoiceEvent,
    envelopes: Map<TunedDegree, Envelope>,
    tuning: TuningView,
)
    ensures
        parsed(amy_wire::event_text(event, envelopes, tuning)) == match event {
            VoiceEvent::Off(oscillator) => Some((oscillator, false)),
            VoiceEvent::On(oscillator, _) => Some((oscillator, true)),
        },
{
    reveal_strlit("v");
    reveal_strlit("n");
    reveal_strlit("l0");
    reveal_strlit("l1");
    let message = amy_wire::event_text(event, envelopes, tuning);
    let oscillator = match event {
        VoiceEvent::Off(oscillator) => oscillator,
        VoiceEvent::On(oscillator, _) => oscillator,
    };
    let digits = text::decimal(oscillator as nat);
    let tail = match event {
        VoiceEvent::Off(_) => "l0"@,
        VoiceEvent::On(_, pitch) => "n"@ + amy_wire::key_text(tuning.key_billionths(pitch.pitch)) + (
        if envelopes.dom().contains(pitch.class()) {
            amy_wire::envelope_text(envelopes[pitch.class()]@)
        } else {
            Seq::empty()
        }) + "l1"@,
    };
    assert(message =~= seq!['v'] + digits + tail);
    let rest = message.subrange(1, message.len() as int);
    assert(rest =~= digits + tail);
    text::lemma_decimal_reads_back(oscillator as nat);
    text::lemma_digits_at_front(digits, tail);
    assert(rest.subrange(0, digits.len() as int) =~= digits);
    let n = message.len() as int;
    match event {
        VoiceEvent::Off(_) => {
            assert(message[n - 1] == "l0"@[1]);
        },
        VoiceEvent::On(_, _) => {
            assert(message[n - 2] == "l1"@[0]);
            assert(message[n - 1] == "l1"@[1]);
        },
    }
}

/// What a sequence of messages did: how many notes started and ended, which
/// oscillators still sound, and how many ends hit a silent oscillator.
pub struct LedgerView {
    pub note_ons: nat,
    pub note_offs: nat,
    pub sounding: Set<u16>,
    pub unmatched_offs: nat,
}

/// The ledger after one more message.
pub open spec fn entered(ledger: LedgerView, oscillator: u16, on: bool) -> LedgerView {
    if on {
        LedgerView {
            note_ons: ledger.note_ons + 1,
            sounding: ledger.sounding.insert(oscillator),
            ..ledger
        }
    } else {
        LedgerView {
            note_offs: ledger.note_offs + 1,
            sounding: ledger.sounding.remove(oscillator),
            unmatched_offs: ledger.unmatched_offs + if ledger.sounding.contains(oscillator) {
                0nat
            } else {
                1nat
            },
            ..ledger
        }
    }
}

/// The ledger of a sequence of messages, as far as they are understood.
pub open spec fn ledger_of(messages: Seq<Seq<char>>) -> LedgerView
    decreases messages.len(),
{
    if messages.len() == 0 {
        LedgerView { note_ons: 0, note_offs: 0, sounding: Set::empty(), unmatched_offs: 0 }
    } else {
        let before = ledger_of(messages.drop_last());
        match parsed(messages.last()) {
            Some((oscillator, on)) => entered(before, oscillator, on),
            None => before,
        }
    }
}

pub open spec fn texts(messages: Seq<String>) -> Seq<Seq<char>> {
    messages.map_values(|message: String| message@)
}

/// The no-stuck-notes ledger of a sequence of wire messages.
#[derive(Debug)]
pub struct EventLedger {
    pub note_ons: usize,
    pub note_offs: usize,
    /// Oscillators still holding a note. After teardown there are none.
    pub stuck_oscs: SortedSet<u16>,
    /// Note-offs that hit an oscillator that was not sounding.
    pub unmatched_offs: usize,
}

impl View for EventLedger {
    type V = LedgerView;

    open spec fn view(&self) -> LedgerView {
        LedgerView {
            note_ons: self.note_ons as nat,
            note_offs: self.note_offs as nat,
            sounding: self.stuck_oscs@,
            unmatched_offs: self.unmatched_offs as nat,
        }
    }
}

/// Reads the ledger off the emitted messages.
pub fn ledger(messages: &Vec<String>) -> (ledger: EventLedger)
    ensures
        ledger@ == ledger_of(texts(messages@)),
{
    let mut ledger = EventLedger {
        note_ons: 0,
        note_offs: 0,
        stuck_oscs: SortedSet::new(),
        unmatched_offs: 0,
    };
    let mut i: usize = 0;
    assert(texts(messages@).subrange(0, 0).len() == 0);
    while i < messages.len()
        invariant
            i <= messages@.len(),
            ledger.note_ons <= i,
            ledger.note_offs <= i,
            ledger.unmatched_offs <= i,
            ledger@ == ledger_of(texts(messages@).subrange(0, i as int)),
        decreases messages@.len() - i,
    {
        proof {
            let all = texts(messages@);
            assert(all.subrange(0, i + 1).drop_last() =~= all.subrange(0, i as int));
            assert(all[i as int] == messages@[i as int]@);
        }
        match parse_event(messages[i].as_str()) {
            Some((oscillator, on)) => {
                if on {
                    ledger.note_ons = ledger.note_ons + 1;
                    ledger.stuck_oscs.insert(oscillator);
                } else {
                    ledger.note_offs = ledger.note_offs + 1;
                    if !ledger.stuck_oscs.remove(&oscillator) {
                        ledger.unmatched_offs = ledger.unmatched_offs + 1;
                    }
                }
            },
            None => {},
        }
        i = i + 1;
    }
    assert(texts(messages@).subrange(0, i as int) =~= texts(messages@));
    ledger
}

/// The degrees of a tuning with these indices.
pub open spec fn indexed(tuning: TuningView, indices: Set<u16>) -> Set<TunedDegree> {
    Set::new(
        |degree: TunedDegree| degree.tuning_id == tuning.id && indices.contains(degree.degree),
    )
}

fn degrees_of(tuning: &Tuning, indices: &SortedSet<u16>) -> (degrees: SortedSet<TunedDegree>)
    ensures
        degrees@ == indexed(tuning@, indices@),
{
    let items: &[u16] = indices.as_slice();
    let mut degrees: SortedSet<TunedDegree> = SortedSet::new();
    let mut i: usize = 0;
    assert(items@.subrange(0, 0).to_set() =~= Set::<u16>::empty());
    assert(degrees@ =~= indexed(tuning@, items@.subrange(0, 0).to_set()));
    while i < items.len()
        invariant
            i <= items@.len(),
            degrees@ == indexed(tuning@, items@.subrange(0, i as int).to_set()),
        decreases items@.len() - i,
    {
        let degree = TunedDegree { tuning_id: tuning.id(), degree: items[i] };
        proof {
            collections::lemma_prefix_set(items@, i as int);
            assert(indexed(tuning@, items@.subrange(0, i + 1).to_set()) =~= indexed(
                tuning@,
                items@.subrange(0, i as int).to_set(),
            ).insert(degree));
        }
        degrees.insert(degree);
        i = i + 1;
    }
    assert(items@.subrange(0, i as int) =~= items@);
    degrees
}

/// The live pitches of a timeline step, in order.
pub open spec fn step_pitches(tuning: TuningView, indices: Set<u16>) -> Seq<TunedPeriodicPitch> {
    collections::ascending_of(amy_wire::degree_pitches(indexed(tuning, indices)))
}

/// What is live after the first `n` steps of a timeline. Before it, nothing is.
pub open spec fn live_after(timeline: Seq<Set<u16>>, n: int) -> Set<u16> {
    if n <= 0 {
        Set::empty()
    } else {
        timeline[n - 1]
    }
}

/// The events that drive a synthesizer from silence through a timeline.
pub open spec fn driven(tuning: TuningView, timeline: Seq<Set<u16>>, n: nat) -> Seq<VoiceEvent>
    decreases n,
{
    if n == 0 {
        Seq::empty()
    } else {
        driven(tuning, timeline, (n - 1) as nat) + amy_wire::transition(
            step_pitches(tuning, live_after(timeline, n - 1)),
            step_pitches(tuning, live_after(timeline, n as int)),
            MAX_OSCS,
        )
    }
}

/// Driven through a timeline and then back to silence.
pub open spec fn driven_to_silence(tuning: TuningView, timeline: Seq<Set<u16>>) -> Seq<VoiceEvent> {
    driven(tuning, timeline.push(Set::empty()), timeline.len() + 1)
}

/// Whether every step of a timeline fits the oscillators.
pub open spec fn fits(tuning: TuningView, timeline: Seq<Set<u16>>) -> bool {
    forall|n: int| 0 <= n < timeline.len() ==> fits_step(tuning, #[trigger] timeline[n])
}

/// Whether what is live at a step fits the oscillators.
pub open spec fn fits_step(tuning: TuningView, indices: Set<u16>) -> bool {
    amy_wire::degree_pitches(indexed(tuning, indices)).len() <= MAX_OSCS
}

/// The first step from `n` on that does not fit.
pub open spec fn first_unfit(tuning: TuningView, timeline: Seq<Set<u16>>, n: int) -> int
    decreases timeline.len() - n,
{
    if n >= timeline.len() || !fits_step(tuning, timeline[n]) {
        n
    } else {
        first_unfit(tuning, timeline, n + 1)
    }
}

/// There are finitely many pitches to a step.
proof fn lemma_pitches_finite(tuning: TuningView, indices: Set<u16>)
    ensures
        amy_wire::degree_pitches(indexed(tuning, indices)).finite(),
{
    let all = Seq::new(
        0x1_0000,
        |i: int|
            TunedPeriodicPitch::of_degree(
                TunedDegree { tuning_id: tuning.id, degree: i as u16 },
            ),
    );
    let pitches = amy_wire::degree_pitches(indexed(tuning, indices));
    assert forall|pitch: TunedPeriodicPitch| pitches.contains(pitch) implies all.to_set().contains(
        pitch,
    ) by {
        assert(all[pitch.pitch.degree as int] == pitch);
    }
    vstd::seq_lib::seq_to_set_is_finite(all);
    vstd::set_lib::lemma_set_subset_finite(all.to_set(), pitches);
}

proof fn lemma_step_len(tuning: TuningView, indices: Set<u16>)
    requires
        fits_step(tuning, indices),
    ensures
        step_pitches(tuning, indices).len() <= MAX_OSCS,
{
    lemma_pitches_finite(tuning, indices);
    collections::lemma_finite_set_ascends(amy_wire::degree_pitches(indexed(tuning, indices)));
}

/// What is live after a step sounds after it.
proof fn lemma_driven_sounds(
    tuning: TuningView,
    timeline: Seq<Set<u16>>,
    n: nat,
    oscillator: u16,
)
    requires
        n <= timeline.len(),
        fits(tuning, timeline),
    ensures
        amy_wire::performed(|o: u16| None, driven(tuning, timeline, n))(oscillator)
            == amy_wire::voices(
            step_pitches(tuning, live_after(timeline, n as int)),
            MAX_OSCS as int,
        )(oscillator),
        amy_wire::orderly(|o: u16| None, driven(tuning, timeline, n)),
    decreases n,
{
    let silence = |o: u16| None::<TunedPeriodicPitch>;
    lemma_silent_step(tuning);
    if n > 0 {
        let m = (n - 1) as nat;
        let (b, a) = (
            step_pitches(tuning, live_after(timeline, m as int)),
            step_pitches(tuning, live_after(timeline, n as int)),
        );
        let earlier = driven(tuning, timeline, m);
        let next = amy_wire::transition(b, a, MAX_OSCS);
        amy_wire::lemma_performed_join(silence, earlier, next);
        assert forall|o: u16|
            amy_wire::performed(silence, earlier)(o) == #[trigger] amy_wire::voices(
                b,
                MAX_OSCS as int,
            )(o) by {
            lemma_driven_sounds(tuning, timeline, m, o);
        }
        let state = amy_wire::performed(silence, earlier);
        let voices = amy_wire::voices(b, MAX_OSCS as int);
        assert(state =~= voices);
        if m > 0 {
            lemma_step_len(tuning, timeline[m - 1]);
        }
        lemma_step_len(tuning, timeline[n - 1]);
        amy_wire::law_transition_reaches_the_later_set(b, a, MAX_OSCS, oscillator);
        lemma_driven_sounds(tuning, timeline, m, oscillator);
        amy_wire::law_transitions_are_orderly(b, a, MAX_OSCS);
        amy_wire::lemma_orderly_join(silence, earlier, next);
    }
}

/// A step at which nothing is live sounds nothing.
proof fn lemma_silent_step(tuning: TuningView)
    ensures
        step_pitches(tuning, Set::empty()) == Seq::<TunedPeriodicPitch>::empty(),
        fits_step(tuning, Set::empty()),
        forall|o: u16| #[trigger]
            amy_wire::voices(
                step_pitches(tuning, Set::empty()),
                MAX_OSCS as int,
            )(o) is None,
{
    let nothing = amy_wire::degree_pitches(indexed(tuning, Set::empty()));
    let empty = Seq::<TunedPeriodicPitch>::empty();
    assert(nothing =~= Set::empty());
    assert(nothing =~= empty.to_set());
    collections::lemma_ascending_of(empty);
}

/// No stuck notes, end to end: after the teardown no oscillator sounds, and on
/// the way there notes start on silent oscillators and end on sounding ones.
pub proof fn law_teardown_is_silent(
    tuning: TuningView,
    timeline: Seq<Set<u16>>,
    oscillator: u16,
)
    requires
        fits(tuning, timeline),
    ensures
        amy_wire::performed(|o: u16| None, driven_to_silence(tuning, timeline))(oscillator)
            is None,
        amy_wire::orderly(|o: u16| None, driven_to_silence(tuning, timeline)),
{
    let whole = timeline.push(Set::empty());
    lemma_silent_step(tuning);
    assert(fits(tuning, whole)) by {
        assert forall|n: int| 0 <= n < whole.len() implies fits_step(
            tuning,
            #[trigger] whole[n],
        ) by {
            if n < timeline.len() {
                assert(whole[n] == timeline[n]);
            }
        }
    }
    lemma_driven_sounds(tuning, whole, whole.len(), oscillator);
    assert(amy_wire::voices(step_pitches(tuning, Set::empty()), MAX_OSCS as int)(oscillator)
        is None);
}

/// What the ledger says of messages that play an orderly sequence of events.
proof fn lemma_ledger_of_orderly_events(
    messages: Seq<String>,
    events: Seq<VoiceEvent>,
    envelopes: Map<TunedDegree, Envelope>,
    tuning: TuningView,
)
    requires
        amy_wire::spells(messages, events, envelopes, tuning),
        amy_wire::orderly(|o: u16| None, events),
    ensures
        ({
            let ledger = ledger_of(texts(messages));
            &&& ledger.sounding.finite()
            &&& forall|o: u16| #[trigger]
                ledger.sounding.contains(o) == (amy_wire::performed(|o: u16| None, events)(
                    o,
                ) is Some)
            &&& ledger.unmatched_offs == 0
            &&& ledger.note_ons == ledger.note_offs + ledger.sounding.len()
        }),
    decreases events.len(),
{
    let all = texts(messages);
    if events.len() > 0 {
        let rest = events.drop_last();
        assert forall|i: int| 0 <= i < rest.len() implies (#[trigger] messages.drop_last()[i])@
            == amy_wire::event_text(rest[i], envelopes, tuning) by {
            assert(messages[i]@ == amy_wire::event_text(events[i], envelopes, tuning));
        }
        lemma_ledger_of_orderly_events(messages.drop_last(), rest, envelopes, tuning);
        assert(all.drop_last() =~= texts(messages.drop_last()));
        let last = messages.len() - 1;
        assert(all.last() == messages[last]@);
        assert(messages[last]@ == amy_wire::event_text(events[last], envelopes, tuning));
        law_rendered_events_are_understood(events.last(), envelopes, tuning);
    }
}

/// The ledger of a whole drive is clean: nothing is stuck, no end was unmatched,
/// and as many notes ended as started.
pub proof fn law_drive_ledger_is_clean(
    messages: Seq<String>,
    tuning: TuningView,
    timeline: Seq<Set<u16>>,
)
    requires
        fits(tuning, timeline),
        amy_wire::spells(messages, driven_to_silence(tuning, timeline), Map::empty(), tuning),
    ensures
        ledger_of(texts(messages)).sounding == Set::<u16>::empty(),
        ledger_of(texts(messages)).unmatched_offs == 0,
        ledger_of(texts(messages)).note_ons == ledger_of(texts(messages)).note_offs,
{
    let events = driven_to_silence(tuning, timeline);
    law_teardown_is_silent(tuning, timeline, 0);
    lemma_ledger_of_orderly_events(messages, events, Map::empty(), tuning);
    assert forall|o: u16| !ledger_of(texts(messages)).sounding.contains(o) by {
        law_teardown_is_silent(tuning, timeline, o);
    }
    assert(ledger_of(texts(messages)).sounding =~= Set::<u16>::empty());
}

/// The messages that drive AMY along a timeline and back to silence.
#[derive(Debug)]
pub struct DrivePlan {
    /// Every wire message, in order: those of each step, then the teardown's.
    pub events: Vec<String>,
    /// How many of the messages are sent by the end of each step.
    pub step_ends: Vec<usize>,
}

/// The sets of a timeline.
pub open spec fn sets_of(timeline: Seq<SortedSet<u16>>) -> Seq<Set<u16>> {
    timeline.map_values(|step: SortedSet<u16>| step@)
}

proof fn lemma_spells_join(
    first: Seq<String>,
    second: Seq<String>,
    a: Seq<VoiceEvent>,
    b: Seq<VoiceEvent>,
    tuning: TuningView,
)
    requires
        amy_wire::spells(first, a, Map::empty(), tuning),
        amy_wire::spells(second, b, Map::empty(), tuning),
    ensures
        amy_wire::spells(first + second, a + b, Map::empty(), tuning),
{
    let (messages, events) = (first + second, a + b);
    assert forall|i: int| 0 <= i < events.len() implies (#[trigger] messages[i])@
        == amy_wire::event_text(events[i], Map::empty(), tuning) by {
        if i < a.len() {
            assert(messages[i] == first[i]);
        } else {
            assert(messages[i] == second[i - a.len()]);
        }
    }
}

/// What comes later in a timeline does not change how it begins.
proof fn lemma_driven_prefix(tuning: TuningView, a: Seq<Set<u16>>, b: Seq<Set<u16>>, n: nat)
    requires
        n <= a.len(),
        n <= b.len(),
        forall|i: int| 0 <= i < n ==> #[trigger] a[i] == b[i],
    ensures
        driven(tuning, a, n) == driven(tuning, b, n),
    decreases n,
{
    if n > 0 {
        lemma_driven_prefix(tuning, a, b, (n - 1) as nat);
        assert(a[n - 1] == b[n - 1]);
        if n > 1 {
            assert(a[n - 2] == b[n - 2]);
        }
    }
}

/// Plans the messages that drive AMY along a timeline of live sets, from silence
/// to silence: the change from each set to the next, and at the end the release
/// of everything. A set that needs more oscillators than there are is an error.
pub fn plan_drive(timeline: &Vec<SortedSet<u16>>, tuning: &Tuning) -> (result: Result<
    DrivePlan,
    AmyVoiceCapacityError,
>)
    requires
        forall|n: int, pc: u16|
            0 <= n < timeline@.len() && #[trigger] timeline@[n]@.contains(pc) ==> pc
                < tuning@.degrees.len(),
    ensures
        ({
            let steps = sets_of(timeline@);
            match result {
                Ok(plan) => {
                    &&& fits(tuning@, steps)
                    &&& amy_wire::spells(
                        plan.events@,
                        driven_to_silence(tuning@, steps),
                        Map::empty(),
                        tuning@,
                    )
                    &&& plan.step_ends@.len() == steps.len()
                    &&& forall|n: int|
                        0 <= n < steps.len() ==> #[trigger] plan.step_ends@[n] == driven(
                            tuning@,
                            steps,
                            (n + 1) as nat,
                        ).len()
                },
                Err(error) => {
                    let over = first_unfit(tuning@, steps, 0);
                    &&& !fits(tuning@, steps)
                    &&& 0 <= over < steps.len()
                    &&& error == (AmyVoiceCapacityError {
                        required: amy_wire::degree_pitches(
                            indexed(tuning@, steps[over]),
                        ).len() as usize,
                        available: MAX_OSCS,
                    })
                },
            }
        }),
{
    let ghost steps = sets_of(timeline@);
    let ghost whole = steps.push(Set::empty());
    let no_envelopes: SortedMap<TunedDegree, Envelope> = SortedMap::new();
    let mut events: Vec<String> = Vec::new();
    let mut step_ends: Vec<usize> = Vec::new();
    let empty: SortedSet<u16> = SortedSet::new();
    let mut live: SortedSet<TunedDegree> = degrees_of(tuning, &empty);
    proof {
        lemma_silent_step(tuning@);
    }
    let mut i: usize = 0;
    while i < timeline.len()
        invariant
            i <= timeline@.len(),
            steps == sets_of(timeline@),
            no_envelopes@ == Map::<TunedDegree, Envelope>::empty(),
            live@ == indexed(tuning@, live_after(steps, i as int)),
            fits_step(tuning@, live_after(steps, i as int)),
            forall|n: int| 0 <= n < i ==> fits_step(tuning@, #[trigger] steps[n]),
            first_unfit(tuning@, steps, 0) == first_unfit(tuning@, steps, i as int),
            amy_wire::spells(
                events@,
                driven(tuning@, steps, i as nat),
                Map::empty(),
                tuning@,
            ),
            step_ends@.len() == i,
            forall|n: int|
                0 <= n < i ==> #[trigger] step_ends@[n] == driven(
                    tuning@,
                    steps,
                    (n + 1) as nat,
                ).len(),
        decreases timeline@.len() - i,
    {
        assert(steps[i as int] == timeline@[i as int]@);
        let next: SortedSet<TunedDegree> = degrees_of(tuning, &timeline[i]);
        let mut messages: Vec<String> = match degrees_to_amy_events(
            &live,
            &next,
            &no_envelopes,
            tuning,
            MAX_OSCS,
        ) {
            Ok(messages) => messages,
            Err(error) => {
                assert(!fits_step(tuning@, steps[i as int]));
                return Err(error);
            },
        };
        proof {
            lemma_spells_join(
                events@,
                messages@,
                driven(tuning@, steps, i as nat),
                amy_wire::transition(
                    step_pitches(tuning@, live_after(steps, i as int)),
                    step_pitches(tuning@, live_after(steps, i + 1)),
                    MAX_OSCS,
                ),
                tuning@,
            );
        }
        events.append(&mut messages);
        step_ends.push(events.len());
        live = next;
        i = i + 1;
    }
    let silent: SortedSet<TunedDegree> = degrees_of(tuning, &empty);
    let mut teardown: Vec<String> = match degrees_to_amy_events(
        &live,
        &silent,
        &no_envelopes,
        tuning,
        MAX_OSCS,
    ) {
        Ok(messages) => messages,
        Err(error) => {
            return Err(error);
        },
    };
    proof {
        lemma_driven_prefix(tuning@, steps, whole, steps.len());
        assert(live_after(whole, steps.len() as int) == live_after(steps, steps.len() as int));
        lemma_spells_join(
            events@,
            teardown@,
            driven(tuning@, whole, steps.len()),
            amy_wire::transition(
                step_pitches(tuning@, live_after(whole, steps.len() as int)),
                step_pitches(tuning@, live_after(whole, (steps.len() + 1) as int)),
                MAX_OSCS,
            ),
            tuning@,
        );
    }
    events.append(&mut teardown);
    Ok(DrivePlan { events, step_ends })
}

/// A message is read where it begins with a `v` and the digits of an oscillator, and it
/// starts a note exactly where it ends with level one.
pub proof fn law_messages_are_read_strictly(digits: Seq<char>, rest: Seq<char>)
    requires
        forall|i: int| 0 <= i < digits.len() ==> text::is_digit(#[trigger] digits[i]),
        rest.len() > 0 ==> !text::is_digit(rest[0]),
    ensures
        digits.len() == 0 ==> parsed(seq!['v'] + digits + rest) is None,
        text::number_of(digits) > 65_535 ==> parsed(seq!['v'] + digits + rest) is None,
        digits.len() > 0 && text::number_of(digits) <= 65_535 ==> (parsed(
            seq!['v'] + digits + rest,
        ) matches Some((oscillator, on)) && oscillator == text::number_of(digits) && on == (
        rest.len() >= 2 && rest[rest.len() - 2] == 'l' && rest.last() == '1')),
{
    let message = seq!['v'] + digits + rest;
    let tail = message.subrange(1, message.len() as int);
    assert(tail =~= digits + rest);
    text::lemma_digits_at_front(digits, rest);
    assert(tail.subrange(0, digits.len() as int) =~= digits);
    if digits.len() > 0 {
        assert(message[digits.len() as int] == digits[digits.len() - 1]);
        if rest.len() == 0 && digits.len() >= 2 {
            assert(message[message.len() - 2] == digits[digits.len() - 2]);
        }
        if rest.len() == 1 {
            assert(message[message.len() - 2] == digits.last());
        }
        assert(!text::is_digit('l'));
    }
}

/// What does not begin with a `v` is not read.
pub proof fn law_other_messages_are_not_read(message: Seq<char>)
    requires
        message.len() == 0 || message[0] != 'v',
    ensures
        parsed(message) is None,
{
}

/// A start counts as one and makes its oscillator sound. An end counts as one and
/// silences it, and is unmatched where the oscillator was silent.
pub proof fn law_the_ledger_counts_starts_and_ends(
    ledger: LedgerView,
    oscillator: u16,
    other: u16,
)
    ensures
        ({
            let on = entered(ledger, oscillator, true);
            let off = entered(ledger, oscillator, false);
            &&& on.note_ons == ledger.note_ons + 1
            &&& on.note_offs == ledger.note_offs
            &&& on.unmatched_offs == ledger.unmatched_offs
            &&& on.sounding.contains(other) <==> other == oscillator || ledger.sounding.contains(
                other,
            )
            &&& off.note_ons == ledger.note_ons
            &&& off.note_offs == ledger.note_offs + 1
            &&& ledger.sounding.contains(oscillator) ==> off.unmatched_offs
                == ledger.unmatched_offs
            &&& !ledger.sounding.contains(oscillator) ==> off.unmatched_offs
                == ledger.unmatched_offs + 1
            &&& off.sounding.contains(other) <==> other != oscillator && ledger.sounding.contains(
                other,
            )
        }),
{
}

/// Messages are entered in their order, from an empty ledger, and those that are not
/// read are passed over.
pub proof fn law_messages_are_entered_in_order(messages: Seq<Seq<char>>, message: Seq<char>)
    ensures
        ({
            let start = ledger_of(Seq::<Seq<char>>::empty());
            &&& start.note_ons == 0
            &&& start.note_offs == 0
            &&& start.unmatched_offs == 0
            &&& start.sounding == Set::<u16>::empty()
        }),
        parsed(message) is None ==> ledger_of(messages.push(message)) == ledger_of(messages),
        parsed(message) matches Some((oscillator, on)) ==> ledger_of(messages.push(message))
            == entered(ledger_of(messages), oscillator, on),
{
    assert(messages.push(message).drop_last() =~= messages);
}

/// After each step of a timeline the instrument sounds the degrees of that step and no
/// others, each on the oscillator that it would have by itself.
pub proof fn law_each_step_sounds_its_degrees(
    tuning: TuningView,
    timeline: Seq<Set<u16>>,
    n: nat,
    oscillator: u16,
)
    requires
        0 < n <= timeline.len(),
        fits(tuning, timeline),
    ensures
        amy_wire::performed(|o: u16| None, driven(tuning, timeline, n))(oscillator)
            == amy_wire::voices(
            collections::ascending_of(
                amy_wire::degree_pitches(indexed(tuning, timeline[n - 1])),
            ),
            250,
        )(oscillator),
{
    lemma_driven_sounds(tuning, timeline, n, oscillator);
}

/// The degrees of a step are those of the tuning with its numbers.
pub proof fn law_steps_name_degrees(tuning: TuningView, indices: Set<u16>, degree: TunedDegree)
    ensures
        indexed(tuning, indices).contains(degree) <==> degree.tuning_id == tuning.id
            && indices.contains(degree.degree),
{
}

/// The step that is named as too large is the first that is: all before it fit.
pub proof fn law_the_first_large_step_is_named(
    tuning: TuningView,
    timeline: Seq<Set<u16>>,
    from: int,
)
    requires
        0 <= from <= timeline.len(),
    ensures
        from <= first_unfit(tuning, timeline, from) <= timeline.len(),
        forall|n: int|
            from <= n < first_unfit(tuning, timeline, from) ==> amy_wire::degree_pitches(
                indexed(tuning, #[trigger] timeline[n]),
            ).len() <= 250,
        first_unfit(tuning, timeline, from) < timeline.len() ==> amy_wire::degree_pitches(
            indexed(tuning, timeline[first_unfit(tuning, timeline, from)]),
        ).len() > 250,
    decreases timeline.len() - from,
{
    if from < timeline.len() && fits_step(tuning, timeline[from]) {
        law_the_first_large_step_is_named(tuning, timeline, from + 1);
    }
}

/// The way to silence is the way along the timeline and then the transition from its
/// last step to nothing.
pub proof fn law_teardown_follows_the_timeline(tuning: TuningView, timeline: Seq<Set<u16>>)
    requires
        timeline.len() > 0,
    ensures
        driven_to_silence(tuning, timeline) == driven(tuning, timeline, timeline.len())
            + amy_wire::transition(
            collections::ascending_of(amy_wire::degree_pitches(indexed(tuning, timeline.last()))),
            collections::ascending_of(amy_wire::degree_pitches(indexed(tuning, Set::empty()))),
            250,
        ),
{
    let whole = timeline.push(Set::empty());
    lemma_driven_prefix(tuning, timeline, whole, timeline.len());
    assert(whole[timeline.len() - 1] == timeline.last());
    assert(live_after(whole, timeline.len() as int) == timeline.last());
    assert(live_after(whole, whole.len() as int) == Set::<u16>::empty());
}

} // verus!
