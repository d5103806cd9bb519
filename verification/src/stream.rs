//! A part read to its end, as the list of its events.
//!
//! A part is given up where the tokenizer reports a fault, and where a tag
//! has a content that is not text: the attributes of such a tag cannot be
//! read.

use crate::error::DocxError;
use crate::xml::{
    complete_run, next_event, open_reader, reader_pending, reader_position, xml_readings,
    EventModel, Reading, XmlEvent,
};
use vstd::prelude::*;

verus! {

/// The values of a list of events.
pub open spec fn event_views(events: Seq<XmlEvent>) -> Seq<EventModel> {
    Seq::new(events.len(), |i: int| events[i]@)
}

/// Whether the step hands out an event that can be read.
pub open spec fn sound(reading: Reading) -> bool {
    reading.event matches Some(event) && event.readable()
}

/// The number of steps at the start of `readings` that all hand out events that can be read.
pub open spec fn sound_steps(readings: Seq<Reading>) -> nat
    decreases readings.len(),
{
    if readings.len() == 0 {
        0
    } else {
        let before = sound_steps(readings.drop_last());
        if before == readings.len() - 1 && sound(readings.last()) {
            readings.len()
        } else {
            before
        }
    }
}

/// The events of a whole run of a reader, without the `Eof` that ends it.
pub open spec fn stream_events(readings: Seq<Reading>) -> Seq<EventModel> {
    Seq::new((readings.len() - 1) as nat, |i: int| readings[i].event->0)
}

/// The byte offset at which a run of a reader is given up, if it is: that of
/// the first step that is a fault or hands out a tag that cannot be read.
pub open spec fn stream_fault(readings: Seq<Reading>) -> Option<nat> {
    if sound_steps(readings) < readings.len() {
        Some(readings[sound_steps(readings) as int].offset)
    } else {
        None
    }
}

/// The events of the part `part`.
pub open spec fn part_events(part: Seq<u8>) -> Seq<EventModel> {
    stream_events(xml_readings(part))
}

/// The byte offset at which the part `part` is given up, if it is.
pub open spec fn part_fault(part: Seq<u8>) -> Option<nat> {
    stream_fault(xml_readings(part))
}

/// Whether each of `events` is a tag whose name lies within its content and
/// whose content is text, or no tag.
pub open spec fn all_well_formed(events: Seq<EventModel>) -> bool {
    forall|i: int|
        0 <= i < events.len() ==> (#[trigger] events[i]).well_formed() && events[i].readable()
}

/// The sound steps at the start of a run are at most its steps, and where
/// they end before the first `n` steps do, they end there for the whole run.
pub proof fn lemma_sound_steps(readings: Seq<Reading>, n: int)
    requires
        0 <= n <= readings.len(),
    ensures
        sound_steps(readings.take(n)) <= n,
        sound_steps(readings.take(n)) < n ==> sound_steps(readings) == sound_steps(
            readings.take(n),
        ),
    decreases readings.len() - n,
{
    lemma_sound_steps_bound(readings.take(n));
    if n < readings.len() {
        assert(readings.take(n + 1).drop_last() =~= readings.take(n));
        lemma_sound_steps(readings, n + 1);
    } else {
        assert(readings.take(n) =~= readings);
    }
}

/// No more steps are sound than there are.
proof fn lemma_sound_steps_bound(readings: Seq<Reading>)
    ensures
        sound_steps(readings) <= readings.len(),
    decreases readings.len(),
{
    if readings.len() > 0 {
        lemma_sound_steps_bound(readings.drop_last());
    }
}

/// Reads the part `xml` to its end. The events come back in their order,
/// without the `Eof` that ends them. A part that is not well-formed is
/// given up, and so is one with a tag whose content is not text.
pub fn read_events(xml: &[u8]) -> (res: Result<Vec<XmlEvent>, DocxError>)
    ensures
        match res {
            Ok(events) => part_fault(xml@) is None && event_views(events@) == part_events(xml@)
                && all_well_formed(part_events(xml@)),
            Err(e) => exists|offset: u64|
                e == (DocxError::MalformedMarkup { offset }) && part_fault(xml@) == Some(
                    offset as nat,
                ),
        },
{
    let ghost all = xml_readings(xml@);
    let mut reader = open_reader(xml);
    let mut events: Vec<XmlEvent> = Vec::new();
    assert(all.take(0) =~= Seq::<Reading>::empty());
    loop
        invariant_except_break
            events.len() < all.len(),
            reader_pending(reader) == all.skip(events.len() as int),
            sound_steps(all.take(events.len() as int)) == events.len(),
        invariant
            all == xml_readings(xml@),
            complete_run(all),
            events.len() < all.len(),
            forall|i: int|
                0 <= i < events.len() ==> Some((#[trigger] events@[i])@) == all[i].event
                    && events@[i]@.readable(),
        ensures
            events.len() == all.len() - 1,
            sound_steps(all) == all.len(),
        decreases all.len() - events.len(),
    {
        let ghost k = events.len() as int;
        assert(all.skip(k)[0] == all[k]);
        assert(all.skip(k).skip(1) =~= all.skip(k + 1));
        assert(all.take(k + 1).drop_last() =~= all.take(k));
        assert(all.take(k + 1).last() == all[k]);
        let next = next_event(&mut reader);
        let offset = reader_position(&reader);
        match next {
            None => {
                proof {
                    lemma_sound_steps(all, k + 1);
                }
                return Err(DocxError::MalformedMarkup { offset });
            },
            Some(event) => {
                if !event.is_readable() {
                    proof {
                        lemma_sound_steps(all, k + 1);
                    }
                    return Err(DocxError::MalformedMarkup { offset });
                }
                if let XmlEvent::Eof = event {
                    assert(k == all.len() - 1);
                    assert(all.take(k + 1) =~= all);
                    break ;
                }
                events.push(event);
            },
        }
    }
    assert(event_views(events@) =~= stream_events(all));
    assert forall|i: int| 0 <= i < part_events(xml@).len() implies (#[trigger] part_events(
        xml@,
    )[i]).well_formed() && part_events(xml@)[i].readable() by {
        assert(all[i].event is Some);
        assert(events@[i]@ == part_events(xml@)[i]);
    }
    Ok(events)
}

} // verus!
