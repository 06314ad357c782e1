//! Statistics of the connectivity probe.

use crate::text;
use crate::text::push_zero_padded;
use vstd::arithmetic::div_mod::lemma_fundamental_div_mod;
use vstd::prelude::*;
use vstd::string::StringExecFns;

verus! {

/// Frames that are saved at most, and how far apart.
pub const MAX_SAMPLES: u32 = 5;

pub const SAMPLE_EVERY: u32 = 10;

/// What the probe has seen so far.
#[derive(Clone, Copy, Debug, PartialEq, Eq, Structural)]
pub struct Probe {
    pub count: u32,
    pub saved: u32,
    pub bytes: usize,
}

/// What to do with a frame.
#[derive(Clone, Copy, Debug, PartialEq, Eq, Structural)]
pub struct Verdict {
    /// The first frame of all.
    pub first: bool,
    /// To be saved as a sample.
    pub sample: bool,
}

/// Where the sample of a frame goes.
pub open spec fn sample_name(count: u32) -> Seq<char> {
    "live_frames/live_"@ + text::zero_padded(count as nat, 3) + ".jpg"@
}

impl Probe {
    /// Nothing seen yet.
    pub fn new() -> (p: Self)
        ensures
            p == (Probe { count: 0, saved: 0, bytes: 0 }),
    {
        Probe { count: 0, saved: 0, bytes: 0 }
    }

    /// Whether one more frame of that length can be counted.
    pub open spec fn has_room(self, len: int) -> bool {
        self.count < u32::MAX && self.bytes + len <= usize::MAX
    }

    /// Whether one more frame of that length can be counted.
    pub fn accepts(&self, len: usize) -> (b: bool)
        ensures
            b == self.has_room(len as int),
    {
        self.count < u32::MAX && len <= usize::MAX - self.bytes
    }

    /// What the probe has seen after one more frame.
    pub open spec fn with_frame(self, len: int) -> Probe {
        Probe { count: (self.count + 1) as u32, bytes: (self.bytes + len) as usize, ..self }
    }

    /// What to do with the next frame.
    pub open spec fn verdict(self) -> Verdict {
        Verdict {
            first: self.count == 0,
            sample: self.saved < MAX_SAMPLES && (self.count + 1) % SAMPLE_EVERY as int == 1,
        }
    }

    /// The mean frame size.
    pub open spec fn mean(self) -> Option<usize> {
        if self.count == 0 {
            None
        } else {
            Some((self.bytes as int / self.count as int) as usize)
        }
    }

    /// Counts a frame, and says whether it is the first one and whether it is to be
    /// saved: the first of every ten, until enough are saved.
    pub fn frame(&mut self, len: usize) -> (v: Verdict)
        requires
            old(self).has_room(len as int),
        ensures
            *final(self) == (Probe {
                count: (old(self).count + 1) as u32,
                bytes: (old(self).bytes + len) as usize,
                ..*old(self)
            }),
            v.first == (old(self).count == 0),
            v.sample == (old(self).saved < MAX_SAMPLES && final(self).count % SAMPLE_EVERY == 1),
            *final(self) == old(self).with_frame(len as int),
            v == old(self).verdict(),
    {
        let first = self.count == 0;
        self.count = self.count + 1;
        self.bytes = self.bytes + len;
        Verdict { first, sample: self.saved < MAX_SAMPLES && self.count % SAMPLE_EVERY == 1 }
    }

    /// A sample was saved.
    pub fn sample_saved(&mut self)
        requires
            old(self).saved < u32::MAX,
        ensures
            *final(self) == (Probe { saved: (old(self).saved + 1) as u32, ..*old(self) }),
    {
        self.saved = self.saved + 1;
    }

    /// The mean frame size, once there is a frame.
    pub fn average(&self) -> (a: Option<usize>)
        ensures
            a == if self.count == 0 {
                None
            } else {
                Some((self.bytes as int / self.count as int) as usize)
            },
            a == self.mean(),
    {
        if self.count == 0 {
            None
        } else {
            Some(self.bytes / self.count as usize)
        }
    }
}

/// Where the sample of a frame goes.
pub fn sample_path(count: u32) -> (path: String)
    ensures
        path@ == sample_name(count),
{
    let mut path = "live_frames/live_".to_owned();
    push_zero_padded(&mut path, count, 3);
    path.append(".jpg");
    path
}

/// The probe counts frames and bytes. The first frame is the first; samples are the first,
/// eleventh, twenty-first and so on, until five are saved.
pub proof fn probe_counts_frames(p: Probe, len: int)
    requires
        p.has_room(len),
        0 <= len,
    ensures
        p.with_frame(len).count == p.count + 1,
        p.with_frame(len).bytes == p.bytes + len,
        p.with_frame(len).saved == p.saved,
        p.verdict().first == (p.count == 0),
        p.verdict().sample == (p.saved < 5 && p.count % 10 == 0),
{
}

/// The mean, times the number of frames, is the number of bytes but for less than one byte
/// for each frame; there is none without frames.
pub proof fn mean_is_bytes_per_frame(p: Probe)
    ensures
        p.mean() is None <==> p.count == 0,
        p.mean() matches Some(m) ==> m * p.count <= p.bytes < (m + 1) * p.count,
{
    if p.count > 0 {
        let (b, n) = (p.bytes as int, p.count as int);
        lemma_fundamental_div_mod(b, n);
        let m = b / n;
        assert(n * m == m * n && (m + 1) * n == m * n + n) by (nonlinear_arith);
        assert(0 <= m <= b) by (nonlinear_arith)
            requires
                0 <= b,
                1 <= n,
                m == b / n,
        ;
    }
}

/// Where a sample goes: into one directory, under the frame's number in at least three
/// digits.
pub proof fn samples_are_numbered(count: u32)
    ensures
        ({
            let name = sample_name(count);
            let n = name.len() - 4;
            &&& n >= 20
            &&& name.take(17) == "live_frames/live_"@
            &&& text::value(name.subrange(17, n)) == count
            &&& name.skip(n) == seq!['.', 'j', 'p', 'g']
        }),
{
    reveal_strlit("live_frames/live_");
    reveal_strlit(".jpg");
    text::padded_numbers_read_back(count as nat, 3, 0);
    let name = sample_name(count);
    let n = name.len() - 4;
    assert(name.take(17) =~= "live_frames/live_"@);
    assert(name.subrange(17, n) =~= text::zero_padded(count as nat, 3));
    assert(name.skip(n) =~= seq!['.', 'j', 'p', 'g']);
}

} // verus!
