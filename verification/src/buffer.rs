//! Sample buffers whose length is fixed when they are made.

use vstd::prelude::*;
use crate::error::SchemeError;

verus! {

/// The width of one sample in bytes.
pub const SAMPLE_BYTES: usize = 4;

/// `len` samples of silence.
pub open spec fn silence(len: nat) -> Seq<i32> {
    Seq::new(len, |i: int| 0i32)
}

/// A buffer of signed 32-bit samples whose length is fixed when it is made.
pub struct AudioBuffer {
    samples: Vec<i32>,
}

impl View for AudioBuffer {
    type V = Seq<i32>;

    closed spec fn view(&self) -> Seq<i32> {
        self.samples@
    }
}

impl AudioBuffer {
    /// A buffer of `size` samples, all of them zero.
    pub fn new(size: usize) -> (buffer: Self)
        ensures
            buffer@ == silence(size as nat),
    {
        let samples: Vec<i32> = vec![0i32; size];
        assert(samples@ =~= silence(size as nat));
        AudioBuffer { samples }
    }

    /// The number of samples.
    pub fn len(&self) -> (n: usize)
        ensures
            n == self@.len(),
    {
        self.samples.len()
    }

    /// The sample at `index`, or `None` past the end.
    pub fn get(&self, index: usize) -> (sample: Option<i32>)
        ensures
            sample == if index < self@.len() {
                Some(self@[index as int])
            } else {
                None
            },
    {
        if index < self.samples.len() {
            Some(self.samples[index])
        } else {
            None
        }
    }

    /// Stores `sample` at `index`; answers `false`, and changes nothing, past the end.
    pub fn set(&mut self, index: usize, sample: i32) -> (stored: bool)
        ensures
            stored == (index < old(self)@.len()),
            final(self)@ == if stored {
                old(self)@.update(index as int, sample)
            } else {
                old(self)@
            },
    {
        if index < self.samples.len() {
            self.samples.set(index, sample);
            true
        } else {
            false
        }
    }

    /// The samples, in order.
    pub fn as_slice(&self) -> (samples: &[i32])
        ensures
            samples@ == self@,
    {
        self.samples.as_slice()
    }

    /// Overwrites every sample with zero.
    pub fn zero(&mut self)
        ensures
            final(self)@ == silence(old(self)@.len()),
    {
        let n = self.samples.len();
        let mut i: usize = 0;
        while i < n
            invariant
                i <= n,
                n == self.samples@.len(),
                n == old(self)@.len(),
                forall|j: int| 0 <= j < i ==> self.samples@[j] == 0i32,
            decreases n - i,
        {
            self.samples.set(i, 0);
            i += 1;
        }
        assert(self.samples@ =~= silence(old(self)@.len()));
    }

    /// Replaces the samples by those of `samples` where the two lengths agree,
    /// and answers with the length. A slice of another length is refused with
    /// `Einval`, and nothing changes.
    pub fn load(&mut self, samples: &[i32]) -> (r: Result<usize, SchemeError>)
        ensures
            samples@.len() == old(self)@.len() ==> r == Ok::<usize, SchemeError>(samples.len())
                && final(self)@ == samples@,
            samples@.len() != old(self)@.len() ==> r == Err::<usize, SchemeError>(
                SchemeError::Einval,
            ) && final(self)@ == old(self)@,
    {
        let n = self.samples.len();
        if samples.len() != n {
            return Err(SchemeError::Einval);
        }
        let mut i: usize = 0;
        while i < n
            invariant
                i <= n,
                n == self.samples@.len(),
                n == samples@.len(),
                forall|j: int| 0 <= j < i ==> self.samples@[j] == samples@[j],
            decreases n - i,
        {
            self.samples.set(i, samples[i]);
            i += 1;
        }
        assert(self.samples@ =~= samples@);
        Ok(n)
    }

    /// Whether a mapping of `size` bytes covers the buffer exactly.
    pub open spec fn fits(self, size: usize) -> bool {
        size as int == SAMPLE_BYTES * self@.len()
    }

    /// Grants a mapping of `size` bytes under `handle` where `size` is the
    /// buffer's length in bytes, and refuses any other size with `Einval`.
    pub fn map(&self, handle: usize, size: usize) -> (r: Result<usize, SchemeError>)
        ensures
            r == if self.fits(size) {
                Ok::<usize, SchemeError>(handle)
            } else {
                Err::<usize, SchemeError>(SchemeError::Einval)
            },
    {
        if size % SAMPLE_BYTES == 0 && size / SAMPLE_BYTES == self.samples.len() {
            Ok(handle)
        } else {
            Err(SchemeError::Einval)
        }
    }
}

} // verus!
