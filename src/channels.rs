//! The table of output channels: one identifier per topic, given out in order.
use vstd::prelude::*;

verus! {

/// The largest number of channels that 16-bit identifiers can name.
pub const MAX_CHANNELS: usize = 65536;

/// Whether two byte strings are equal.
pub fn bytes_eq(a: &[u8], b: &[u8]) -> (r: bool)
    ensures
        r == (a@ == b@),
{
    if a.len() != b.len() {
        return false;
    }
    let mut i: usize = 0;
    while i < a.len()
        invariant
            a@.len() == b@.len(),
            i <= a@.len(),
            forall|k: int| 0 <= k < i ==> a@[k] == b@[k],
        decreases a@.len() - i,
    {
        if a[i] != b[i] {
            return false;
        }
        i = i + 1;
    }
    assert(a@ =~= b@);
    true
}

/// The table after a topic has been made sure of: unchanged where the topic is
/// already there, else with the topic at the end.
pub open spec fn registered(t: Seq<Seq<u8>>, topic: Seq<u8>) -> Seq<Seq<u8>> {
    if t.contains(topic) {
        t
    } else {
        t.push(topic)
    }
}

/// The table after the same topic has been made sure of `n` times.
pub open spec fn registered_times(t: Seq<Seq<u8>>, topic: Seq<u8>, n: nat) -> Seq<Seq<u8>>
    decreases n,
{
    if n == 0 {
        t
    } else {
        registered(registered_times(t, topic, (n - 1) as nat), topic)
    }
}

/// Output channels by topic; a channel's identifier is its place in the table.
pub struct ChannelTable {
    topics: Vec<Vec<u8>>,
}

impl View for ChannelTable {
    type V = Seq<Seq<u8>>;

    closed spec fn view(&self) -> Seq<Seq<u8>> {
        self.topics@.map_values(|t: Vec<u8>| t@)
    }
}

impl ChannelTable {
    /// Each topic stands once, and every place has a 16-bit identifier.
    pub open spec fn wf(&self) -> bool {
        self@.no_duplicates() && self@.len() <= MAX_CHANNELS
    }

    /// An empty table.
    pub fn new() -> (r: ChannelTable)
        ensures
            r.wf(),
            r@ == Seq::<Seq<u8>>::empty(),
    {
        let r = ChannelTable { topics: Vec::new() };
        assert(r@ =~= Seq::<Seq<u8>>::empty());
        r
    }

    /// The number of channels.
    pub fn len(&self) -> (r: usize)
        ensures
            r == self@.len(),
    {
        self.topics.len()
    }

    /// The identifier of `topic`'s channel, if it has one.
    pub fn lookup(&self, topic: &[u8]) -> (r: Option<u16>)
        requires
            self.wf(),
        ensures
            match r {
                Some(id) => (id as int) < self@.len() && self@[id as int] == topic@,
                None => !self@.contains(topic@),
            },
    {
        let mut i: usize = 0;
        while i < self.topics.len()
            invariant
                i <= self.topics@.len(),
                self.wf(),
                forall|k: int| 0 <= k < i ==> self@[k] != topic@,
            decreases self.topics@.len() - i,
        {
            if bytes_eq(self.topics[i].as_slice(), topic) {
                return Some(i as u16);
            }
            i = i + 1;
        }
        None
    }

    /// The identifier of `topic`'s channel, registering the channel where it
    /// has none yet; the flag says whether it was registered by this call.
    /// Fails, changing nothing, where every identifier is taken.
    pub fn ensure_channel(&mut self, topic: &[u8]) -> (r: Option<(u16, bool)>)
        requires
            old(self).wf(),
        ensures
            final(self).wf(),
            match r {
                Some((id, created)) => final(self)@ == registered(old(self)@, topic@) && (id as int)
                    < final(self)@.len() && final(self)@[id as int] == topic@ && created == !old(
                    self,
                )@.contains(topic@) && (created ==> id == old(self)@.len()),
                None => final(self)@ == old(self)@ && !old(self)@.contains(topic@) && old(
                    self,
                )@.len() == MAX_CHANNELS,
            },
    {
        match self.lookup(topic) {
            Some(id) => Some((id, false)),
            None => {
                if self.topics.len() >= MAX_CHANNELS {
                    return None;
                }
                let id = self.topics.len() as u16;
                let mut v: Vec<u8> = Vec::new();
                let mut i: usize = 0;
                while i < topic.len()
                    invariant
                        i <= topic@.len(),
                        v@ == topic@.subrange(0, i as int),
                    decreases topic@.len() - i,
                {
                    v.push(topic[i]);
                    i = i + 1;
                    assert(v@ =~= topic@.subrange(0, i as int));
                }
                assert(v@ =~= topic@);
                let ghost before = self@;
                self.topics.push(v);
                assert(self@ =~= before.push(topic@));
                proof {
                    assert forall|a: int, b: int|
                        0 <= a < b < self@.len() implies self@[a] != self@[b] by {
                        if b == before.len() {
                            assert(before[a] == self@[a]);
                        } else {
                            assert(before[a] == self@[a] && before[b] == self@[b]);
                        }
                    }
                }
                Some((id, true))
            },
        }
    }
}

/// Making sure of a topic's channel any number of times, once or more, leaves
/// the table as making sure of it once does: one registration at most, and the
/// topic keeps the one identifier.
pub proof fn lemma_ensure_channel_idempotent(t: Seq<Seq<u8>>, topic: Seq<u8>, n: nat)
    requires
        n >= 1,
    ensures
        registered_times(t, topic, n) == registered(t, topic),
        registered(t, topic).len() <= t.len() + 1,
        registered(t, topic).contains(topic),
    decreases n,
{
    let r = registered(t, topic);
    assert(r.contains(topic)) by {
        if !t.contains(topic) {
            assert(r[t.len() as int] == topic);
        }
    }
    assert(registered(r, topic) == r);
    if n > 1 {
        lemma_ensure_channel_idempotent(t, topic, (n - 1) as nat);
    } else {
        assert(registered_times(t, topic, 0) == t);
    }
}

} // verus!
