use vstd::prelude::*;

verus! {

/// What a data loader holds: the token ids, the batch shape, and the start
/// of the next batch within each segment.
pub struct LoaderModel {
    pub tokens: Seq<u32>,
    pub batch_size: nat,
    pub sequence_length: nat,
    pub cursor: nat,
}

pub open spec fn batch_too_large_msg() -> Seq<char> {
    "DataLoader: batch size is larger than tokens"@
}

pub open spec fn segment_too_long_msg() -> Seq<char> {
    "DataLoader: segment length is larger than sequence length"@
}

pub open spec fn cursor_out_of_range_msg() -> Seq<char> {
    "DataLoader: cursor out of range"@
}

/// The tokens cut into `batch_size` segments of equal length; the remainder
/// is left out.
pub open spec fn segment_len(m: LoaderModel) -> nat {
    m.tokens.len() / m.batch_size
}

/// The window `[cursor, cursor + sequence_length)` within each segment, as
/// offsets into the tokens.
pub open spec fn batch_windows(m: LoaderModel) -> Seq<(usize, usize)> {
    Seq::new(
        m.batch_size,
        |i: int| (
            (m.cursor + i * segment_len(m)) as usize,
            (m.cursor + m.sequence_length + i * segment_len(m)) as usize,
        ),
    )
}

/// Hands out windows over a flat sequence of token ids, one batch at a time.
pub struct DataLoader {
    tokens: Box<[u32]>,
    batch_size: usize,
    sequence_length: usize,
    cursor: usize,
}

impl View for DataLoader {
    type V = LoaderModel;

    closed spec fn view(&self) -> LoaderModel {
        LoaderModel {
            tokens: self.tokens@,
            batch_size: self.batch_size as nat,
            sequence_length: self.sequence_length as nat,
            cursor: self.cursor as nat,
        }
    }
}

impl DataLoader {
    /// A loader over `tokens`; fails when there are fewer tokens than
    /// segments, or when a segment is at least `sequence_length` long.
    pub fn new(tokens: Box<[u32]>, sequence_length: usize, batch_size: usize) -> (r: Result<DataLoader, String>)
        requires
            batch_size > 0,
        ensures
            tokens@.len() < batch_size ==> (r matches Err(e) && e@ == batch_too_large_msg()),
            tokens@.len() >= batch_size && tokens@.len() / (batch_size as nat) >= sequence_length
                ==> (r matches Err(e) && e@ == segment_too_long_msg()),
            tokens@.len() >= batch_size && tokens@.len() / (batch_size as nat) < sequence_length
                ==> (r matches Ok(d) && d@ == (LoaderModel {
                    tokens: tokens@,
                    batch_size: batch_size as nat,
                    sequence_length: sequence_length as nat,
                    cursor: 0,
                })),
    {
        if tokens.len() < batch_size {
            return Err("DataLoader: batch size is larger than tokens".to_string());
        }
        if (tokens.len() / batch_size) >= sequence_length {
            return Err("DataLoader: segment length is larger than sequence length".to_string());
        }
        Ok(DataLoader { tokens, batch_size, sequence_length, cursor: 0 })
    }

    /// The next batch: the window at the cursor within each segment; the
    /// cursor then moves by one. Fails, with nothing changed, once the window
    /// would pass the end of a segment.
    pub fn next_batch(&mut self) -> (r: Result<Vec<(usize, usize)>, String>)
        requires
            old(self)@.batch_size > 0,
            old(self)@.sequence_length > 0,
        ensures
            old(self)@.cursor + old(self)@.sequence_length > segment_len(old(self)@)
                ==> (r matches Err(e) && e@ == cursor_out_of_range_msg()) && final(self)@ == old(self)@,
            old(self)@.cursor + old(self)@.sequence_length <= segment_len(old(self)@)
                ==> (r matches Ok(b) && b@ == batch_windows(old(self)@))
                && final(self)@ == (LoaderModel { cursor: old(self)@.cursor + 1, ..old(self)@ }),
    {
        let seg_len = self.tokens.len() / self.batch_size;
        if self.sequence_length > seg_len || self.cursor > seg_len - self.sequence_length {
            return Err("DataLoader: cursor out of range".to_string());
        }
        let ghost m = self@;
        let mut batch: Vec<(usize, usize)> = Vec::new();
        let mut i: usize = 0;
        proof {
            assert(seg_len * self.batch_size <= self.tokens@.len()) by (nonlinear_arith)
                requires
                    seg_len as int == self.tokens@.len() as int / (self.batch_size as int),
                    self.batch_size > 0;
        }
        while i < self.batch_size
            invariant
                i <= self.batch_size,
                m == self@,
                seg_len == segment_len(m),
                self.cursor + self.sequence_length <= seg_len,
                seg_len * self.batch_size <= self.tokens@.len(),
                self.tokens@.len() <= usize::MAX,
                batch@ == batch_windows(m).take(i as int),
            decreases self.batch_size - i,
        {
            proof {
                assert(i * seg_len + seg_len <= seg_len * self.batch_size) by (nonlinear_arith)
                    requires
                        i < self.batch_size;
            }
            let off = i * seg_len;
            let track = (self.cursor + off, self.cursor + self.sequence_length + off);
            batch.push(track);
            assert(batch@ =~= batch_windows(m).take(i as int + 1));
            i = i + 1;
        }
        assert(batch_windows(m).take(i as int) =~= batch_windows(m));
        self.cursor = self.cursor + 1;
        Ok(batch)
    }
}

} // verus!
