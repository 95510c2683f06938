use vstd::prelude::*;

verus! {

/// A record as the log container hands it out: its number and its XML text.
pub struct RawRecord {
    pub record_id: u64,
    pub data: String,
}

/// The structured form of one record: its id, its channel, and its event data
/// as (name, value) pairs.
pub struct Event {
    pub event_id: String,
    pub channel: String,
    pub event_data: Vec<(String, String)>,
}

pub open spec fn data_view(d: Seq<(String, String)>) -> Seq<(Seq<char>, Seq<char>)> {
    d.map_values(|p: (String, String)| (p.0@, p.1@))
}

impl Event {
    pub open spec fn data(&self) -> Seq<(Seq<char>, Seq<char>)> {
        data_view(self.event_data@)
    }

    pub fn new(event_id: String, channel: String) -> (r: Event)
        ensures
            r.event_id == event_id,
            r.channel == channel,
            r.event_data@.len() == 0,
    {
        Event { event_id, channel, event_data: Vec::new() }
    }

    /// Adds one (name, value) pair at the end of the event data.
    pub fn push_data(&mut self, name: String, value: String)
        ensures
            final(self).event_id == old(self).event_id,
            final(self).channel == old(self).channel,
            final(self).event_data@ == old(self).event_data@.push((name, value)),
    {
        self.event_data.push((name, value));
    }
}

} // verus!
