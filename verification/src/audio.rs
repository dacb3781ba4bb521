//! Spatial audio: a pool of audio channels handed to sound-emitting entities, and
//! what a sound source's playback flags ask of its channel.
use vstd::prelude::*;

verus! {

/// The map from entities to their channels: a `bevy::utils::HashMap`, which is
/// std's `HashMap` with aHash's hasher. The hasher's type cannot be named from
/// this crate, so the map is kept opaque, and what it holds is named by
/// `channel_map_contents`.
#[verifier::external_body]
pub struct ChannelMap {
    map: bevy::utils::HashMap<u64, u64>,
}

/// The entries of a channel map.
pub uninterp spec fn channel_map_contents(m: ChannelMap) -> Map<u64, u64>;

/// Makes an empty map with `Default::default()`, which bevy documents as the way to
/// make an empty `bevy::utils::HashMap`: the map holds no entry.
#[verifier::external_body]
fn channel_map_new() -> (fresh: ChannelMap)
    ensures
        channel_map_contents(fresh).dom().is_empty(),
{
    ChannelMap { map: bevy::utils::HashMap::default() }
}

/// Calls `HashMap::insert`: afterwards the map maps `k` to `v`, and the value `k`
/// had before comes back (`None` where it had none), as std documents.
#[verifier::external_body]
fn channel_map_insert(m: &mut ChannelMap, k: u64, v: u64) -> (r: Option<u64>)
    ensures
        channel_map_contents(*final(m)) == channel_map_contents(*old(m)).insert(k, v),
        r == (if channel_map_contents(*old(m)).contains_key(k) {
            Some(channel_map_contents(*old(m))[k])
        } else {
            None
        }),
{
    m.map.insert(k, v)
}

/// Calls `HashMap::remove`: afterwards `k` has no entry, and the value it had
/// comes back (`None` where it had none), as std documents.
#[verifier::external_body]
fn channel_map_remove(m: &mut ChannelMap, k: u64) -> (r: Option<u64>)
    ensures
        channel_map_contents(*final(m)) == channel_map_contents(*old(m)).remove(k),
        r == (if channel_map_contents(*old(m)).contains_key(k) {
            Some(channel_map_contents(*old(m))[k])
        } else {
            None
        }),
{
    m.map.remove(&k)
}

/// Calls `HashMap::contains_key`: whether `k` has an entry, as std documents.
#[verifier::external_body]
fn channel_map_contains(m: &ChannelMap, k: u64) -> (r: bool)
    ensures
        r == channel_map_contents(*m).contains_key(k),
{
    m.map.contains_key(&k)
}

/// Numbers new audio channels. One counter is shared by all pools, so that no two
/// pools ever make the same channel.
pub struct ChannelCounter {
    next: u64,
}

impl ChannelCounter {
    /// Number that the next channel to be made gets.
    pub closed spec fn next(&self) -> u64 {
        self.next
    }

    /// A counter that has made no channel yet.
    pub fn new() -> (counter: ChannelCounter)
        ensures
            counter.next() == 0,
    {
        ChannelCounter { next: 0 }
    }
}

/// Pool of audio channels, each named by a number: an entity that emits sound gets
/// a channel of its own, and gives it back when it stops.
pub struct AudioChannelPool {
    free: Vec<u64>,
    used: ChannelMap,
}

impl AudioChannelPool {
    /// Channels that are free to hand out.
    pub closed spec fn free_channels(&self) -> Seq<u64> {
        self.free@
    }

    /// The channel of each entity that holds one.
    pub closed spec fn used_channels(&self) -> Map<u64, u64> {
        channel_map_contents(self.used)
    }

    /// No channel is handed out twice: free channels are distinct, no two entities
    /// share a channel, and no used channel is free.
    pub open spec fn wf(&self) -> bool {
        &&& self.free_channels().no_duplicates()
        &&& forall|e1: u64, e2: u64| #[trigger] self.used_channels().contains_key(e1)
            && #[trigger] self.used_channels().contains_key(e2) && e1 != e2
            ==> self.used_channels()[e1] != self.used_channels()[e2]
        &&& forall|e: u64| #[trigger] self.used_channels().contains_key(e)
            ==> !self.free_channels().contains(self.used_channels()[e])
    }

    /// Every channel of the pool, free or used, has a number below `n`: it was made
    /// before a counter standing at `n`.
    pub open spec fn below(&self, n: u64) -> bool {
        &&& forall|i: int| 0 <= i < self.free_channels().len() ==> #[trigger] self.free_channels()[i] < n
        &&& forall|e: u64| #[trigger] self.used_channels().contains_key(e) ==> self.used_channels()[e] < n
    }

    /// An empty pool.
    pub fn new() -> (pool: AudioChannelPool)
        ensures
            pool.wf(),
            forall|n: u64| #[trigger] pool.below(n),
            pool.free_channels().len() == 0,
            pool.used_channels() == Map::<u64, u64>::empty(),
    {
        let used = channel_map_new();
        proof {
            assert(channel_map_contents(used) =~= Map::<u64, u64>::empty()) by {
                assert forall|k: u64| !channel_map_contents(used).dom().contains(k) by {}
            }
        }
        AudioChannelPool { free: Vec::new(), used }
    }

    /// Whether `entity` holds a channel.
    pub fn has_channel(&self, entity: u64) -> (r: bool)
        ensures
            r == self.used_channels().contains_key(entity),
    {
        channel_map_contains(&self.used, entity)
    }

    /// Whether a channel can be had without making one past the last number.
    pub fn can_supply(&self, counter: &ChannelCounter) -> (r: bool)
        ensures
            r == (self.free_channels().len() > 0 || counter.next() < u64::MAX),
    {
        self.free.len() > 0 || counter.next < u64::MAX
    }

    /// Gets a channel for `entity`: a free one where there is one (the last given
    /// back), otherwise a new one made by the shared `counter`. The entity must not
    /// hold a channel yet.
    pub fn take(&mut self, entity: u64, counter: &mut ChannelCounter) -> (channel: u64)
        requires
            old(self).wf(),
            old(self).below(old(counter).next()),
            !old(self).used_channels().contains_key(entity),
            old(self).free_channels().len() == 0 ==> old(counter).next() < u64::MAX,
        ensures
            final(self).wf(),
            final(self).below(final(counter).next()),
            final(self).used_channels() == old(self).used_channels().insert(entity, channel),
            old(self).free_channels().len() > 0 ==> {
                &&& channel == old(self).free_channels().last()
                &&& final(self).free_channels() == old(self).free_channels().drop_last()
                &&& final(counter).next() == old(counter).next()
            },
            old(self).free_channels().len() == 0 ==> {
                &&& channel == old(counter).next()
                &&& final(self).free_channels().len() == 0
                &&& final(counter).next() == old(counter).next() + 1
            },
    {
        let ghost old_free = self.free@;
        let ghost n0 = counter.next;
        let channel = match self.free.pop() {
            Some(c) => c,
            None => {
                let c = counter.next;
                counter.next = counter.next + 1;
                c
            },
        };
        let previous = channel_map_insert(&mut self.used, entity, channel);
        proof {
            assert(self.free@.len() > 0 ==> self.free@ == old_free.drop_last());
            if old_free.len() > 0 {
                assert(old_free.last() == old_free[old_free.len() - 1]);
                assert forall|i: int| 0 <= i < self.free@.len() implies self.free@[i] != channel by {
                    assert(self.free@[i] == old_free[i]);
                }
                assert(!self.free@.contains(channel));
            }
            assert forall|i: int| 0 <= i < self.free@.len() implies #[trigger] self.free@[i] < counter.next by {
                assert(self.free@[i] == old_free[i]);
            }
            assert forall|e: u64| #[trigger] channel_map_contents(self.used).contains_key(e) implies !self.free@.contains(channel_map_contents(self.used)[e]) by {
                if e != entity {
                    assert(!old_free.contains(channel_map_contents(self.used)[e]));
                    if self.free@.contains(channel_map_contents(self.used)[e]) {
                        let i = choose|i: int| 0 <= i < self.free@.len() && self.free@[i] == channel_map_contents(self.used)[e];
                        assert(old_free[i] == channel_map_contents(self.used)[e]);
                    }
                }
            }
            assert forall|e1: u64, e2: u64| #[trigger] channel_map_contents(self.used).contains_key(e1)
                && #[trigger] channel_map_contents(self.used).contains_key(e2) && e1 != e2
                implies channel_map_contents(self.used)[e1] != channel_map_contents(self.used)[e2] by {
                if e1 == entity && old_free.len() > 0 {
                    assert(old_free.contains(channel)) by { assert(old_free[old_free.len() - 1] == channel); }
                } else if e2 == entity && old_free.len() > 0 {
                    assert(old_free.contains(channel)) by { assert(old_free[old_free.len() - 1] == channel); }
                }
            }
            if old_free.len() > 0 {
                assert(old_free.contains(channel)) by { assert(old_free[old_free.len() - 1] == channel); }
                let k = choose|k: int| 0 <= k < old_free.len() && old_free[k] == channel;
                assert(channel < n0);
            }
        }
        channel
    }

    /// Takes back the channel of `entity`, which must hold one, and returns it so
    /// that it can be stopped; it is free again afterwards.
    pub fn give(&mut self, entity: u64) -> (channel: u64)
        requires
            old(self).wf(),
            old(self).used_channels().contains_key(entity),
        ensures
            final(self).wf(),
            forall|n: u64| #[trigger] old(self).below(n) ==> final(self).below(n),
            channel == old(self).used_channels()[entity],
            final(self).used_channels() == old(self).used_channels().remove(entity),
            final(self).free_channels() == old(self).free_channels().push(channel),
    {
        let ghost old_used = channel_map_contents(self.used);
        let ghost old_free = self.free@;
        let removed = channel_map_remove(&mut self.used, entity);
        let channel = match removed {
            Some(c) => c,
            None => 0,
        };
        self.free.push(channel);
        proof {
            assert(channel == old_used[entity]);
            assert forall|i: int, j: int| 0 <= i < self.free@.len() && 0 <= j < self.free@.len() && i != j
                implies self.free@[i] != self.free@[j] by {
                if i == old_free.len() as int {
                    assert(self.free@[j] == old_free[j]);
                } else if j == old_free.len() as int {
                    assert(self.free@[i] == old_free[i]);
                }
            }
            assert forall|e: u64| #[trigger] channel_map_contents(self.used).contains_key(e) implies !self.free@.contains(channel_map_contents(self.used)[e]) by {
                assert(old_used.contains_key(e) && e != entity);
                assert(old_used[e] != channel);
                if self.free@.contains(channel_map_contents(self.used)[e]) {
                    let i = choose|i: int| 0 <= i < self.free@.len() && self.free@[i] == channel_map_contents(self.used)[e];
                    if i < old_free.len() {
                        assert(old_free[i] == channel_map_contents(self.used)[e]);
                        assert(old_free.contains(old_used[e]));
                    }
                }
            }
            assert forall|n: u64| #[trigger] old(self).below(n) implies self.below(n) by {
                assert forall|i: int| 0 <= i < self.free@.len() implies #[trigger] self.free@[i] < n by {
                    if i < old_free.len() {
                        assert(self.free@[i] == old_free[i]);
                    }
                }
            }
        }
        channel
    }
}

/// A channel that a counter makes is held by no pool made up of channels from
/// that counter: where every channel of a pool has a number below the counter's,
/// a channel numbered at or after it is neither free nor used there. So pools
/// sharing a counter never hand out the same new channel.
pub proof fn lemma_new_channel_unheld(pool: AudioChannelPool, n: u64, channel: u64)
    requires
        pool.below(n),
        n <= channel,
    ensures
        !pool.free_channels().contains(channel),
        forall|e: u64| #[trigger] pool.used_channels().contains_key(e) ==> pool.used_channels()[e] != channel,
{
    if pool.free_channels().contains(channel) {
        let i = choose|i: int| 0 <= i < pool.free_channels().len() && pool.free_channels()[i] == channel;
        assert(pool.free_channels()[i] < n);
    }
}

/// A pool whose channels are below a counter stays so as the counter goes on.
pub proof fn lemma_below_grows(pool: AudioChannelPool, n: u64, m: u64)
    requires
        pool.below(n),
        n <= m,
    ensures
        pool.below(m),
{
}

/// Taking a channel for an entity and giving it back restores the pool: the
/// assignment of channels to entities is as it was, the channel given back is the
/// one taken, and the free channels are as they were (the taken channel was the
/// last free one), or, where none was free, hold just the channel the counter made.
pub proof fn lemma_take_give(
    p0: AudioChannelPool,
    p1: AudioChannelPool,
    p2: AudioChannelPool,
    counter0: u64,
    counter1: u64,
    entity: u64,
    taken: u64,
    given: u64,
)
    requires
        p0.wf(),
        !p0.used_channels().contains_key(entity),
        // `p1`, the counter's `counter1` and `taken` are what `p0.take(entity, ..)` gives
        // with the counter at `counter0`
        p1.used_channels() == p0.used_channels().insert(entity, taken),
        p0.free_channels().len() > 0 ==> taken == p0.free_channels().last()
            && p1.free_channels() == p0.free_channels().drop_last() && counter1 == counter0,
        p0.free_channels().len() == 0 ==> taken == counter0 && p1.free_channels().len() == 0
            && counter1 == counter0 + 1,
        // `p2` and `given` are what `p1.give(entity)` gives
        given == p1.used_channels()[entity],
        p2.used_channels() == p1.used_channels().remove(entity),
        p2.free_channels() == p1.free_channels().push(given),
    ensures
        given == taken,
        p2.used_channels() == p0.used_channels(),
        p2.free_channels() == (if p0.free_channels().len() == 0 { seq![taken] } else { p0.free_channels() }),
        counter1 == (if p0.free_channels().len() == 0 { counter0 + 1 } else { counter0 as int }),
{
    assert(p2.used_channels() =~= p0.used_channels());
    if p0.free_channels().len() == 0 {
        assert(p2.free_channels() =~= seq![taken]);
    } else {
        assert(p2.free_channels() =~= p0.free_channels());
    }
}

/// What a sound source asks of its channel.
#[derive(Clone, Copy, Debug, PartialEq, Eq, Structural)]
pub enum AudioCommand {
    Nothing,
    Stop,
    /// Play the source's sound, looped or once, at its playback rate.
    Play { looped: bool },
}

/// A sound source's playback flags, and those that were last acted upon.
#[derive(Clone, Copy, Debug, PartialEq, Eq, Structural)]
pub struct PlaybackState {
    pub looping: bool,
    pub playing: bool,
    pub was_looping: bool,
    pub was_playing: bool,
}

impl PlaybackState {
    /// A source that plays once and has not been acted upon.
    pub fn new() -> (state: PlaybackState)
        ensures
            state == (PlaybackState { looping: false, playing: true, was_looping: false, was_playing: false }),
    {
        PlaybackState { looping: false, playing: true, was_looping: false, was_playing: false }
    }

    /// Make the audio loop or not.
    pub fn set_looping(&mut self, looping: bool)
        ensures
            *final(self) == (PlaybackState { looping, ..*old(self) }),
    {
        self.looping = looping;
    }

    /// Whether to play or not.
    pub fn set_playing(&mut self, playing: bool)
        ensures
            *final(self) == (PlaybackState { playing, ..*old(self) }),
    {
        self.playing = playing;
    }

    /// A source that was just added: plays its sound, looped or once, where it is
    /// playing, and records its flags as acted upon.
    pub fn on_added(&mut self) -> (command: AudioCommand)
        ensures
            command == (if old(self).playing { AudioCommand::Play { looped: old(self).looping } } else { AudioCommand::Nothing }),
            *final(self) == (PlaybackState { was_looping: old(self).looping, was_playing: old(self).playing, ..*old(self) }),
    {
        let command = if self.playing { AudioCommand::Play { looped: self.looping } } else { AudioCommand::Nothing };
        self.was_looping = self.looping;
        self.was_playing = self.playing;
        command
    }

    /// A source whose flags may have changed: nothing where they are as last acted
    /// upon; otherwise a stop where it stopped playing, a new play where its looping
    /// changed, and its flags recorded as acted upon.
    pub fn on_changed(&mut self) -> (command: AudioCommand)
        ensures
            old(self).playing == old(self).was_playing && old(self).looping == old(self).was_looping ==>
                command == AudioCommand::Nothing && *final(self) == *old(self),
            !(old(self).playing == old(self).was_playing && old(self).looping == old(self).was_looping) ==> {
                &&& command == (if !old(self).playing && old(self).was_playing {
                    AudioCommand::Stop
                } else if old(self).was_looping != old(self).looping {
                    AudioCommand::Play { looped: old(self).looping }
                } else {
                    AudioCommand::Nothing
                })
                &&& *final(self) == (PlaybackState { was_looping: old(self).looping, was_playing: old(self).playing, ..*old(self) })
            },
    {
        if self.playing == self.was_playing && self.looping == self.was_looping {
            return AudioCommand::Nothing;
        }
        let command = if !self.playing && self.was_playing {
            AudioCommand::Stop
        } else if self.was_looping != self.looping {
            AudioCommand::Play { looped: self.looping }
        } else {
            AudioCommand::Nothing
        };
        self.was_looping = self.looping;
        self.was_playing = self.playing;
        command
    }
}

} // verus!
