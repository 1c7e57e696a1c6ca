//! DMX output over Art-Net: the channel state and the ArtDmx packets that carry it.
//! Sending a packet over the network is left to the caller.
use vstd::prelude::*;

verus! {

/// The number of DMX channels in a universe.
pub const CHANNELS: usize = 512;

/// The ArtDmx packet for one universe: the `Art-Net` tag, the OpOutput op code (0x5000,
/// low byte first), protocol version 14 (high byte first), the sequence number, physical
/// port 0, the 15-bit universe (low byte, then the high 7 bits), the data length 512 (high
/// byte first), then the channel values.
pub open spec fn artdmx_packet(universe: u16, sequence: u8, data: Seq<u8>) -> Seq<u8> {
    seq![0x41u8, 0x72u8, 0x74u8, 0x2Du8, 0x4Eu8, 0x65u8, 0x74u8, 0x00u8]
        + seq![0x00u8, 0x50u8, 0x00u8, 14u8, sequence, 0x00u8,
            (universe % 256) as u8, ((universe / 256) % 128) as u8, 0x02u8, 0x00u8]
        + data
}

/// Builds the ArtDmx packet that carries 512 channel values.
pub fn build_artdmx(universe: u16, sequence: u8, data: &[u8]) -> (p: Vec<u8>)
    requires
        data@.len() == CHANNELS,
    ensures
        p@ == artdmx_packet(universe, sequence, data@),
        p@.len() == 530,
{
    let mut p: Vec<u8> = Vec::with_capacity(530);
    p.push(0x41);
    p.push(0x72);
    p.push(0x74);
    p.push(0x2D);
    p.push(0x4E);
    p.push(0x65);
    p.push(0x74);
    p.push(0x00);
    p.push(0x00);
    p.push(0x50);
    p.push(0x00);
    p.push(14);
    p.push(sequence);
    p.push(0x00);
    p.push((universe % 256) as u8);
    p.push(((universe / 256) % 128) as u8);
    p.push(0x02);
    p.push(0x00);
    let ghost head = p@;
    let mut i: usize = 0;
    while i < data.len()
        invariant
            i <= data@.len(),
            p@ == head + data@.take(i as int),
        decreases data.len() - i,
    {
        p.push(data[i]);
        proof { assert(p@ =~= head + data@.take(i + 1)); }
        i += 1;
    }
    proof {
        assert(data@.take(i as int) =~= data@);
        assert(p@ =~= artdmx_packet(universe, sequence, data@));
    }
    p
}

/// The sequence number that goes out for counter value `s`: 0 means "no sequencing" in
/// Art-Net, so a counter at 0 is sent as 1.
pub open spec fn sent_sequence(s: u8) -> u8 {
    if s == 0 { 1 } else { s }
}

/// The state of a DMX output: the Art-Net universe to address, the values of its 512
/// channels, and the counter that numbers the packets (it wraps from 255 to 0).
pub struct DmxClient {
    universe: u16,
    channels: Vec<u8>,
    sequence: u8,
}

impl DmxClient {
    pub closed spec fn universe(&self) -> u16 {
        self.universe
    }

    pub closed spec fn channels(&self) -> Seq<u8> {
        self.channels@
    }

    pub closed spec fn counter(&self) -> u8 {
        self.sequence
    }

    /// There are always 512 channels.
    pub closed spec fn wf(&self) -> bool {
        self.channels@.len() == CHANNELS
    }

    /// Universe 0, all channels at 0, the first packet numbered 1.
    pub fn new() -> (d: DmxClient)
        ensures
            d.wf(),
            d.universe() == 0,
            d.channels() == Seq::new(CHANNELS as nat, |i: int| 0u8),
            d.counter() == 1,
    {
        let mut channels: Vec<u8> = Vec::new();
        while channels.len() < CHANNELS
            invariant
                channels@.len() <= CHANNELS,
                forall|i: int| 0 <= i < channels@.len() ==> channels@[i] == 0,
            decreases CHANNELS - channels.len(),
        {
            channels.push(0);
        }
        let d = DmxClient { universe: 0, channels, sequence: 1 };
        assert(d.channels() =~= Seq::new(CHANNELS as nat, |i: int| 0u8));
        d
    }

    /// Sets the universe (0-based) that the packets address.
    pub fn set_universe(&mut self, universe: u16)
        ensures
            final(self).universe() == universe,
            final(self).channels() == old(self).channels(),
            final(self).counter() == old(self).counter(),
            final(self).wf() == old(self).wf(),
    {
        self.universe = universe;
    }

    /// Sets one channel (0-based); a channel past the last is ignored.
    pub fn set_channel(&mut self, channel: usize, value: u8)
        requires
            old(self).wf(),
        ensures
            final(self).wf(),
            final(self).channels() == if channel < CHANNELS {
                old(self).channels().update(channel as int, value)
            } else {
                old(self).channels()
            },
            final(self).universe() == old(self).universe(),
            final(self).counter() == old(self).counter(),
    {
        if channel < CHANNELS {
            self.channels.set(channel, value);
        }
    }

    /// Sets consecutive channels from `start` (0-based) to the given values; the values
    /// that would fall past the last channel are dropped.
    pub fn set_range(&mut self, start: usize, values: &[u8])
        requires
            old(self).wf(),
        ensures
            final(self).wf(),
            final(self).channels() == Seq::new(CHANNELS as nat, |c: int|
                if start <= c < start + values@.len() { values@[c - start] } else { old(self).channels()[c] }),
            final(self).universe() == old(self).universe(),
            final(self).counter() == old(self).counter(),
    {
        let ghost before = self.channels@;
        if start >= CHANNELS {
            assert(self.channels@ =~= Seq::new(CHANNELS as nat, |c: int|
                if start <= c < start + values@.len() { values@[c - start] } else { before[c] }));
            return;
        }
        let room = CHANNELS - start;
        let count = if values.len() < room { values.len() } else { room };
        let mut i: usize = 0;
        while i < count
            invariant
                self.channels@.len() == CHANNELS,
                before.len() == CHANNELS,
                start < CHANNELS,
                count <= values@.len(),
                start + count <= CHANNELS,
                i <= count,
                self.channels@ == Seq::new(CHANNELS as nat, |c: int|
                    if start <= c < start + i { values@[c - start] } else { before[c] }),
                self.universe == old(self).universe,
                self.sequence == old(self).sequence,
            decreases count - i,
        {
            self.channels.set(start + i, values[i]);
            proof {
                assert(self.channels@ =~= Seq::new(CHANNELS as nat, |c: int|
                    if start <= c < start + (i + 1) { values@[c - start] } else { before[c] }));
            }
            i += 1;
        }
        proof {
            assert(self.channels@ =~= Seq::new(CHANNELS as nat, |c: int|
                if start <= c < start + values@.len() { values@[c - start] } else { before[c] }));
        }
    }

    /// The ArtDmx packet for the current channel values, numbered by the counter (a
    /// counter at 0 is sent as 1), and the counter moves on by one, wrapping after 255.
    pub fn next_packet(&mut self) -> (p: Vec<u8>)
        requires
            old(self).wf(),
        ensures
            final(self).wf(),
            p@ == artdmx_packet(old(self).universe(), sent_sequence(old(self).counter()), old(self).channels()),
            final(self).counter() == (old(self).counter() + 1) % 256,
            final(self).universe() == old(self).universe(),
            final(self).channels() == old(self).channels(),
    {
        let current = self.sequence;
        self.sequence = if current == 255 { 0 } else { current + 1 };
        let sent = if current == 0 { 1 } else { current };
        build_artdmx(self.universe, sent, self.channels.as_slice())
    }

    /// Sets every channel to 0 and gives the packet that carries that.
    pub fn blackout(&mut self) -> (p: Vec<u8>)
        requires
            old(self).wf(),
        ensures
            final(self).wf(),
            final(self).channels() == Seq::new(CHANNELS as nat, |i: int| 0u8),
            p@ == artdmx_packet(old(self).universe(), sent_sequence(old(self).counter()), final(self).channels()),
            final(self).counter() == (old(self).counter() + 1) % 256,
            final(self).universe() == old(self).universe(),
    {
        let mut i: usize = 0;
        while i < CHANNELS
            invariant
                self.channels@.len() == CHANNELS,
                i <= CHANNELS,
                forall|c: int| 0 <= c < i ==> self.channels@[c] == 0,
                self.universe == old(self).universe,
                self.sequence == old(self).sequence,
            decreases CHANNELS - i,
        {
            self.channels.set(i, 0);
            i += 1;
        }
        assert(self.channels@ =~= Seq::new(CHANNELS as nat, |i: int| 0u8));
        self.next_packet()
    }
}

/// Every packet carries a sequence number other than 0, so receivers keep them in order.
pub proof fn law_packets_are_sequenced(universe: u16, counter: u8, data: Seq<u8>)
    ensures
        artdmx_packet(universe, sent_sequence(counter), data)[12] != 0,
{
}

} // verus!
