//! The parts of the external stream format that carry no geometry.
use vstd::prelude::*;
use vstd::string::*;

use crate::config::Configuration;

verus! {

/// The image entry of a detection sample.
pub struct Image {
    pub path: String,
    pub dimensions: ImageDimensions,
}

/// The size of an image in pixels.
pub struct ImageDimensions {
    pub width: u32,
    pub height: u32,
}

/// The version of the stream format this library reads and writes.
pub fn format_version() -> (r: String)
    ensures
        r@ == "0.1.0"@,
{
    String::from_str("0.1.0")
}

/// Whether a stream record of this format version can be read: only the
/// library's own version can.
pub fn accepts_version(version: &String) -> (r: bool)
    ensures
        r == (version@ == "0.1.0"@),
{
    let expected = format_version();
    *version == expected
}

/// What an import keeps and what it leaves out: samples of channels outside
/// the configured ones, and the first `skip` frames of the stream.
pub struct Importer<'a> {
    pub config: &'a Configuration,
    pub count: usize,
}

/// Some channel of `channels` has the name `name`.
pub open spec fn listed(channels: Seq<String>, name: Seq<char>) -> bool {
    exists|i: int| 0 <= i < channels.len() && (#[trigger] channels[i])@ == name
}

/// Whether a channel list admits `channel`: no list admits every channel.
fn admits(channels: &Option<Vec<String>>, channel: &String) -> (r: bool)
    ensures
        r == match *channels {
            None => true,
            Some(list) => listed(list@, channel@),
        },
{
    match channels {
        None => true,
        Some(list) => {
            let mut i: usize = 0;
            while i < list.len()
                invariant
                    *channels == Some(*list),
                    i <= list@.len(),
                    forall|k: int| 0 <= k < i ==> (#[trigger] list@[k])@ != channel@,
                decreases list@.len() - i,
            {
                if list[i] == *channel {
                    assert(list@[i as int]@ == channel@);
                    assert(listed(list@, channel@));
                    return true;
                }
                i = i + 1;
            }
            false
        },
    }
}

impl<'a> Importer<'a> {
    /// An importer that has seen no frame yet.
    pub fn new(config: &'a Configuration) -> (r: Importer<'a>)
        ensures
            r.config == config,
            r.count == 0,
    {
        Importer { config, count: 0 }
    }

    /// Whether samples of `channel` are read: always without a channel list,
    /// else when the list names it.
    pub fn admits_channel(&self, channel: &String) -> (r: bool)
        ensures
            r == match self.config.channels {
                None => true,
                Some(list) => listed(list@, channel@),
            },
    {
        admits(&self.config.channels, channel)
    }

    /// Whether the next frame of the stream is left out: it is while fewer
    /// than `skip` frames have been left out; each one left out is counted.
    pub fn skips_frame(&mut self) -> (r: bool)
        ensures
            final(self).config == old(self).config,
            r == (old(self).config.skip is Some && old(self).count < old(self).config.skip->0),
            final(self).count == if r { old(self).count + 1 } else { old(self).count as int },
    {
        match self.config.skip {
            Some(skip) => {
                if self.count < skip {
                    self.count = self.count + 1;
                    true
                } else {
                    false
                }
            },
            None => false,
        }
    }
}

} // verus!
