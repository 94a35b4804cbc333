//! The streaming read pipeline: a record reader over FASTQ lines, the
//! read validator, a reservoir sampler, and the drivers that turn a
//! stream of records into a composition table.

use vstd::prelude::*;

verus! {

use vstd::pervasive::VecAdditionalExecFns;
use vstd::string::StrSliceExecFns;
use vstd::arithmetic::div_mod::{lemma_div_pos_is_pos, lemma_div_is_ordered,
    lemma_fundamental_div_mod_converse};

/// Filtering and sampling parameters of one run.
#[derive(Debug, Clone, Copy)]
pub struct SampleArgs {
    /// How many accepted reads the reservoir keeps.
    pub target_read_count: u64,
    /// Minimum average Phred+33 quality of an accepted read.
    pub min_phred_score: usize,
    /// Maximum number of `N` symbols allowed in an accepted read.
    pub n_content: Option<usize>,
    /// Length each read is cut down to before the other checks.
    pub trimmed_length: Option<usize>,
}

/// What the validator decided about one record.
#[derive(Debug, Clone, Copy, PartialEq, Eq, Structural)]
pub enum ReadCheckResult {
    /// The read passes all filters.
    Accept,
    /// The read fails a filter; the reader moves on to the next record.
    Reject,
    /// The read contains a digit: the input is colorspace-encoded and
    /// the whole run stops cleanly.
    Colorspace,
}

/// A decimal digit character.
pub open spec fn is_digit_char(c: char) -> bool {
    '0' <= c <= '9'
}

/// Whether the sequence contains a decimal digit anywhere — the mark
/// of colorspace-encoded data.
pub open spec fn has_digit(s: Seq<char>) -> bool {
    exists|i: int| 0 <= i < s.len() && is_digit_char(#[trigger] s[i])
}

/// Number of `N` symbols in the sequence.
pub open spec fn count_n_spec(s: Seq<char>) -> int
    decreases s.len(),
{
    if s.len() == 0 {
        0
    } else {
        count_n_spec(s.drop_last()) + (if s.last() == 'N' {
            1int
        } else {
            0int
        })
    }
}

/// Sum of the Phred+33 scores (character code minus 33) of a quality
/// string.
pub open spec fn qual_sum(q: Seq<char>) -> int
    decreases q.len(),
{
    if q.len() == 0 {
        0
    } else {
        qual_sum(q.drop_last()) + (q.last() as int - 33)
    }
}

/// Integer-truncated mean Phred+33 score of a quality string.
pub open spec fn avg_qual(q: Seq<char>) -> int
    recommends
        q.len() > 0,
{
    qual_sum(q) / q.len() as int
}

/// The string cut down to the trim length, or whole when no trim is
/// configured.
pub open spec fn spec_trim(s: Seq<char>, t: Option<usize>) -> Seq<char> {
    match t {
        Some(n) => s.take(n as int),
        None => s,
    }
}

/// A string too short to satisfy the requested trim length.
pub open spec fn too_short(s: Seq<char>, t: Option<usize>) -> bool {
    match t {
        Some(n) => s.len() < n,
        None => false,
    }
}

/// The validator's verdict on a record, checks applied in this fixed
/// order: trim length, colorspace, N-content, average quality.
pub open spec fn spec_check_read(seq: Seq<char>, quals: Seq<char>, args: SampleArgs) -> ReadCheckResult {
    let t = args.trimmed_length;
    if too_short(seq, t) || too_short(quals, t) {
        ReadCheckResult::Reject
    } else if has_digit(spec_trim(seq, t)) {
        ReadCheckResult::Colorspace
    } else if n_rejected(spec_trim(seq, t), args.n_content) {
        ReadCheckResult::Reject
    } else if avg_qual(spec_trim(quals, t)) < args.min_phred_score {
        ReadCheckResult::Reject
    } else {
        ReadCheckResult::Accept
    }
}

/// Whether the N-content filter rejects a (trimmed) sequence.
pub open spec fn n_rejected(s: Seq<char>, n_content: Option<usize>) -> bool {
    match n_content {
        Some(m) => count_n_spec(s) > m,
        None => false,
    }
}

/// Whether the validator reaches the quality check on this record.
pub open spec fn reaches_quality(seq: Seq<char>, quals: Seq<char>, args: SampleArgs) -> bool {
    let t = args.trimmed_length;
    !too_short(seq, t) && !too_short(quals, t) && !has_digit(spec_trim(seq, t)) && !n_rejected(
        spec_trim(seq, t),
        args.n_content,
    )
}

/// The quality string can be averaged without dividing by zero or
/// underflowing a Phred score: whenever the quality check is reached,
/// the trimmed quality string is nonempty and all its scores are at
/// least `'!'` (code 33, score zero).
pub open spec fn check_read_safe(seq: Seq<char>, quals: Seq<char>, args: SampleArgs) -> bool {
    reaches_quality(seq, quals, args) ==> {
        let q = spec_trim(quals, args.trimmed_length);
        q.len() > 0 && forall|i: int| 0 <= i < q.len() ==> #[trigger] q[i] >= '!'
    }
}

/// A new length is excused against the previous one when it is equal,
/// or when a trim length no longer than the previous length is
/// configured (everything beyond the trim point is cut off anyway).
pub open spec fn len_excused(prev: int, new: int, t: Option<usize>) -> bool {
    new == prev || (match t {
        Some(n) => n <= prev,
        None => false,
    })
}

/// The record-length consistency rule: a newly read record's
/// sequence and quality lengths must each match the previous
/// record's, unless the difference is absorbed by a trim length no
/// longer than the previous length. A violation is fatal input
/// corruption; the caller reports it with both lengths and the
/// offending content.
pub open spec fn spec_lengths_consistent(
    prev_seq_len: int,
    prev_quals_len: int,
    seq_len: int,
    quals_len: int,
    t: Option<usize>,
) -> bool {
    len_excused(prev_seq_len, seq_len, t) && len_excused(prev_quals_len, quals_len, t)
}

/// Decides the record-length consistency rule for one record against
/// the previous one.
pub fn lengths_consistent(
    prev_seq_len: usize,
    prev_quals_len: usize,
    seq_len: usize,
    quals_len: usize,
    trimmed_length: Option<usize>,
) -> (r: bool)
    ensures
        r == spec_lengths_consistent(
            prev_seq_len as int,
            prev_quals_len as int,
            seq_len as int,
            quals_len as int,
            trimmed_length,
        ),
{
    let seq_ok = seq_len == prev_seq_len || (match trimmed_length {
        Some(n) => n <= prev_seq_len,
        None => false,
    });
    let quals_ok = quals_len == prev_quals_len || (match trimmed_length {
        Some(n) => n <= prev_quals_len,
        None => false,
    });
    seq_ok && quals_ok
}

/// One FASTQ record: its sequence line and its quality line (header
/// and separator lines are consumed but not retained).
#[derive(Debug)]
pub struct FASTQRead {
    pub seq: String,
    pub quals: String,
}

/// Number of whole 4-line records the given lines hold.
pub open spec fn n_records(lines: Seq<Seq<char>>) -> int {
    lines.len() as int / 4
}

/// The sequence line of record `r`.
pub open spec fn rec_seq(lines: Seq<Seq<char>>, r: int) -> Seq<char> {
    lines[4 * r + 1]
}

/// The quality line of record `r`.
pub open spec fn rec_quals(lines: Seq<Seq<char>>, r: int) -> Seq<char> {
    lines[4 * r + 3]
}

impl FASTQRead {
    pub fn new(len: usize) -> (r: FASTQRead)
        ensures
            r.seq@ == Seq::<char>::empty(),
            r.quals@ == Seq::<char>::empty(),
    {
        // `len` is only a capacity hint; the strings grow on their
        // own.
        let _ = len;
        FASTQRead { seq: String::new(), quals: String::new() }
    }

    /// Length of the sequence line of this record.
    pub fn len(&self) -> (r: usize)
        ensures
            r == self.seq@.len(),
    {
        self.seq.as_str().unicode_len()
    }

    /// Reads the next complete 4-line record into `self`, keeping the
    /// sequence and quality lines, and advances the record cursor.
    /// Returns `None`, leaving everything unchanged, when fewer than
    /// four lines remain (clean end of input).
    pub fn read_fastq(&mut self, lines: &Vec<String>, rec: &mut usize) -> (r: Option<()>)
        requires
            *old(rec) <= n_records(lines.deep_view()),
        ensures
            ({
                let lv = lines.deep_view();
                if *old(rec) < n_records(lv) {
                    &&& r is Some
                    &&& *final(rec) == *old(rec) + 1
                    &&& final(self).seq@ == rec_seq(lv, *old(rec) as int)
                    &&& final(self).quals@ == rec_quals(lv, *old(rec) as int)
                } else {
                    &&& r is None
                    &&& *final(rec) == *old(rec)
                    &&& final(self).seq@ == old(self).seq@
                    &&& final(self).quals@ == old(self).quals@
                }
            }),
    {
        let n = lines.len();
        proof {
            assert(4 * (n as int / 4) <= n as int);
        }
        if n - 4 * *rec >= 4 {
            let base = 4 * *rec;
            self.seq = lines[base + 1].clone();
            self.quals = lines[base + 3].clone();
            *rec = *rec + 1;
            Some(())
        } else {
            None
        }
    }

    /// Cuts `str` down to its first `len` characters. `None` leaves it
    /// unchanged; a string shorter than the requested length is
    /// reported as an error.
    pub fn trim<'a>(str: &'a str, len: Option<usize>) -> (r: Result<&'a str, ()>)
        requires
            str.is_ascii(),
        ensures
            match r {
                Ok(t) => !too_short(str@, len) && t@ == spec_trim(str@, len) && t.is_ascii(),
                Err(_) => too_short(str@, len),
            },
    {
        match len {
            Some(n) => {
                if n > str.unicode_len() {
                    Err(())
                } else {
                    let t = str.substring_ascii(0, n);
                    proof {
                        assert(t@ =~= spec_trim(str@, len));
                    }
                    Ok(t)
                }
            },
            None => Ok(str),
        }
    }

    /// Counts the `N` symbols in the sequence.
    pub fn count_n(seq: &str) -> (r: usize)
        requires
            seq.is_ascii(),
        ensures
            r as int == count_n_spec(seq@),
    {
        proof {
            lemma_count_n_bounds(seq@);
        }
        let n = seq.unicode_len();
        let mut i: usize = 0;
        let mut count: usize = 0;
        while i < n
            invariant
                n == seq@.len(),
                vstd::string::is_ascii(seq),
                i <= n,
                count as int == count_n_spec(seq@.take(i as int)),
                count <= i,
            decreases n - i,
        {
            let b = seq.get_ascii(i);
            proof {
                let pre = seq@.take(i as int + 1);
                assert(pre.drop_last() =~= seq@.take(i as int));
                assert(pre.last() == seq@[i as int]);
                lemma_count_n_bounds(seq@.take(i as int));
                assert((seq@[i as int] == 'N') == (b == crate::BYTE_N));
            }
            if b == crate::BYTE_N {
                count = count + 1;
            }
            i = i + 1;
        }
        proof {
            assert(seq@.take(n as int) =~= seq@);
        }
        count
    }

    /// Whether a digit occurs in `seq` — the mark of colorspace data.
    pub fn check_colorspace(&self, seq: &str) -> (r: bool)
        requires
            seq.is_ascii(),
        ensures
            r == has_digit(seq@),
    {
        let n = seq.unicode_len();
        let mut i: usize = 0;
        while i < n
            invariant
                n == seq@.len(),
                vstd::string::is_ascii(seq),
                i <= n,
                forall|j: int| 0 <= j < i ==> !is_digit_char(#[trigger] seq@[j]),
            decreases n - i,
        {
            let b = seq.get_ascii(i);
            proof {
                assert(is_digit_char(seq@[i as int]) == (48 <= b <= 57));
            }
            if b >= 48 && b <= 57 {
                return true;
            }
            i = i + 1;
        }
        false
    }

    /// Integer-truncated mean of the Phred+33 scores of `quals`.
    pub fn get_average_quality(quals: &str) -> (r: usize)
        requires
            quals.is_ascii(),
            quals@.len() > 0,
            forall|i: int| 0 <= i < quals@.len() ==> #[trigger] quals@[i] >= '!',
        ensures
            r as int == avg_qual(quals@),
    {
        let n = quals.unicode_len();
        let mut i: usize = 0;
        let mut sum: u128 = 0;
        while i < n
            invariant
                n == quals@.len(),
                vstd::string::is_ascii(quals),
                forall|j: int| 0 <= j < quals@.len() ==> #[trigger] quals@[j] >= '!',
                i <= n,
                sum as int == qual_sum(quals@.take(i as int)),
                sum <= 94 * (i as u128),
            decreases n - i,
        {
            let b = quals.get_ascii(i);
            proof {
                let pre = quals@.take(i as int + 1);
                assert(pre.drop_last() =~= quals@.take(i as int));
                assert(pre.last() == quals@[i as int]);
                assert(quals@[i as int] >= '!');
                assert(33 <= b <= 127);
            }
            sum = sum + (b as u128 - 33);
            i = i + 1;
        }
        proof {
            assert(quals@.take(n as int) =~= quals@);
        }
        let avg = sum / (n as u128);
        proof {
            lemma_div_pos_is_pos(sum as int, n as int);
            lemma_div_is_ordered(sum as int, 94 * n as int, n as int);
            lemma_fundamental_div_mod_converse(94 * n as int, n as int, 94, 0);
        }
        avg as usize
    }

    /// Applies all filters to this record, in the fixed order: trim
    /// length, colorspace, N-content, average quality.
    pub fn check_read(&self, args: &SampleArgs) -> (r: ReadCheckResult)
        requires
            vstd::string::string_is_ascii(&self.seq),
            vstd::string::string_is_ascii(&self.quals),
            check_read_safe(self.seq@, self.quals@, *args),
        ensures
            r == spec_check_read(self.seq@, self.quals@, *args),
    {
        let seq = FASTQRead::trim(self.seq.as_str(), args.trimmed_length);
        let quals = FASTQRead::trim(self.quals.as_str(), args.trimmed_length);

        let (seq, quals) = match (seq, quals) {
            (Ok(s), Ok(q)) => (s, q),
            _ => {
                return ReadCheckResult::Reject;
            },
        };

        if self.check_colorspace(seq) {
            return ReadCheckResult::Colorspace;
        }

        if let Some(m) = args.n_content {
            if FASTQRead::count_n(seq) > m {
                return ReadCheckResult::Reject;
            }
        }

        if FASTQRead::get_average_quality(quals) < args.min_phred_score {
            return ReadCheckResult::Reject;
        }

        ReadCheckResult::Accept
    }
}

proof fn lemma_count_n_bounds(s: Seq<char>)
    ensures
        0 <= count_n_spec(s) <= s.len(),
    decreases s.len(),
{
    if s.len() > 0 {
        lemma_count_n_bounds(s.drop_last());
    }
}

/// Index of the first record at or after `r` that the validator
/// accepts; `None` at end of input or when a colorspace record stops
/// the run first.
pub open spec fn next_accepted(lines: Seq<Seq<char>>, args: SampleArgs, r: int) -> Option<int>
    decreases n_records(lines) - r,
{
    if r < 0 || r >= n_records(lines) {
        None
    } else {
        match spec_check_read(rec_seq(lines, r), rec_quals(lines, r), args) {
            ReadCheckResult::Accept => Some(r),
            ReadCheckResult::Reject => next_accepted(lines, args, r + 1),
            ReadCheckResult::Colorspace => None,
        }
    }
}

/// The stream of accepted, trimmed sequences from record `r` on, up to
/// end of input or the first colorspace record.
pub open spec fn accepted_from(lines: Seq<Seq<char>>, args: SampleArgs, r: int) -> Seq<Seq<char>>
    decreases n_records(lines) - r,
{
    if r < 0 || r >= n_records(lines) {
        Seq::empty()
    } else {
        match spec_check_read(rec_seq(lines, r), rec_quals(lines, r), args) {
            ReadCheckResult::Accept => seq![
                spec_trim(rec_seq(lines, r), args.trimmed_length),
            ] + accepted_from(lines, args, r + 1),
            ReadCheckResult::Reject => accepted_from(lines, args, r + 1),
            ReadCheckResult::Colorspace => Seq::empty(),
        }
    }
}

/// Every accepted read of a trimmed run is exactly the trim length
/// long, and the stream is no longer than the record count.
pub proof fn lemma_accepted_shape(lines: Seq<Seq<char>>, args: SampleArgs, r: int)
    ensures
        r <= n_records(lines) ==> accepted_from(lines, args, r).len() <= n_records(lines) - r,
        match args.trimmed_length {
            Some(n) => forall|i: int|
                0 <= i < accepted_from(lines, args, r).len() ==> (
                #[trigger] accepted_from(lines, args, r)[i]).len() == n,
            None => true,
        },
    decreases n_records(lines) - r,
{
    if r < 0 || r >= n_records(lines) {
    } else {
        match spec_check_read(rec_seq(lines, r), rec_quals(lines, r), args) {
            ReadCheckResult::Accept => {
                lemma_accepted_shape(lines, args, r + 1);
                if args.trimmed_length is Some {
                    let n = args.trimmed_length.unwrap();
                    assert(!too_short(rec_seq(lines, r), args.trimmed_length));
                    assert(spec_trim(rec_seq(lines, r), args.trimmed_length).len() == n);
                }
            },
            ReadCheckResult::Reject => {
                lemma_accepted_shape(lines, args, r + 1);
            },
            ReadCheckResult::Colorspace => {},
        }
    }
}

/// Walks FASTQ records held as plain lines, applying the validator,
/// and hands out the accepted, trimmed sequences one by one.
#[derive(Debug)]
pub struct FASTQReader {
    pub curr: FASTQRead,
    pub lines: Vec<String>,
    pub rec: usize,
    pub sample_args: SampleArgs,
    pub target_read_count: u64,
}

impl FASTQReader {
    /// The reader's invariant: the cursor is inside the input, every
    /// line is ASCII text, and no record can make the validator divide
    /// by zero or underflow a Phred score.
    pub open spec fn wf(&self) -> bool {
        let lv = self.lines.deep_view();
        &&& self.rec <= n_records(lv)
        &&& forall|r: int|
            #![trigger rec_seq(lv, r)]
            #![trigger rec_quals(lv, r)]
            0 <= r < n_records(lv) ==> vstd::utf8::is_ascii_chars(rec_seq(lv, r))
                && vstd::utf8::is_ascii_chars(rec_quals(lv, r))
        &&& forall|r: int|
            0 <= r < n_records(lv) ==> check_read_safe(
                rec_seq(lv, r),
                rec_quals(lv, r),
                self.sample_args,
            )
        &&& self.target_read_count == self.sample_args.target_read_count
        &&& vstd::utf8::is_ascii_chars(self.curr.seq@)
        &&& vstd::utf8::is_ascii_chars(self.curr.quals@)
    }

    pub fn new(args: SampleArgs, lines: Vec<String>) -> (r: FASTQReader)
        requires
            forall|r: int|
                #![trigger rec_seq(lines.deep_view(), r)]
                #![trigger rec_quals(lines.deep_view(), r)]
                0 <= r < n_records(lines.deep_view()) ==> vstd::utf8::is_ascii_chars(
                    rec_seq(lines.deep_view(), r),
                ) && vstd::utf8::is_ascii_chars(rec_quals(lines.deep_view(), r)),
            forall|r: int|
                0 <= r < n_records(lines.deep_view()) ==> check_read_safe(
                    rec_seq(lines.deep_view(), r),
                    rec_quals(lines.deep_view(), r),
                    args,
                ),
        ensures
            r.wf(),
            r.lines == lines,
            r.rec == 0,
            r.sample_args == args,
            r.target_read_count == args.target_read_count,
    {
        let read = FASTQRead::new(match args.trimmed_length {
            Some(n) => n,
            None => 0,
        });
        let target_read_count = args.target_read_count;
        FASTQReader { curr: read, lines, rec: 0, sample_args: args, target_read_count }
    }

    /// Advances to the next accepted record and returns its trimmed
    /// sequence. Returns `None` at end of input or when a colorspace
    /// record stops the run; from then on the accepted stream is
    /// empty.
    pub fn next(&mut self) -> (r: Option<String>)
        requires
            old(self).wf(),
        ensures
            final(self).wf(),
            final(self).lines == old(self).lines,
            final(self).sample_args == old(self).sample_args,
            final(self).target_read_count == old(self).target_read_count,
            ({
                let lv = old(self).lines.deep_view();
                let args = old(self).sample_args;
                match r {
                    Some(s) => {
                        &&& next_accepted(lv, args, old(self).rec as int) == Some(
                            final(self).rec - 1,
                        )
                        &&& s@ == spec_trim(
                            rec_seq(lv, final(self).rec - 1),
                            args.trimmed_length,
                        )
                        &&& accepted_from(lv, args, old(self).rec as int) == seq![s@]
                            + accepted_from(lv, args, final(self).rec as int)
                        &&& vstd::utf8::is_ascii_chars(s@)
                    },
                    None => {
                        &&& next_accepted(lv, args, old(self).rec as int) is None
                        &&& accepted_from(lv, args, old(self).rec as int) == Seq::<Seq<char>>::empty()
                        &&& accepted_from(lv, args, final(self).rec as int) == Seq::<
                            Seq<char>,
                        >::empty()
                    },
                }
            }),
    {
        let ghost lv = self.lines.deep_view();
        let ghost args = self.sample_args;
        let ghost rec0 = self.rec as int;
        loop
            invariant
                self.wf(),
                self.lines == old(self).lines,
                self.sample_args == old(self).sample_args,
                self.target_read_count == old(self).target_read_count,
                lv == self.lines.deep_view(),
                args == self.sample_args,
                rec0 == old(self).rec as int,
                next_accepted(lv, args, rec0) == next_accepted(lv, args, self.rec as int),
                accepted_from(lv, args, rec0) == accepted_from(lv, args, self.rec as int),
            decreases n_records(lv) - self.rec as int,
        {
            let ghost r_before = self.rec as int;
            let got = self.curr.read_fastq(&self.lines, &mut self.rec);
            if got.is_none() {
                return None;
            }
            proof {
                assert(self.curr.seq@ == rec_seq(lv, r_before));
                assert(self.curr.quals@ == rec_quals(lv, r_before));
                assert(vstd::utf8::is_ascii_chars(rec_seq(lv, r_before)));
                assert(vstd::utf8::is_ascii_chars(rec_quals(lv, r_before)));
            }
            let verdict = self.curr.check_read(&self.sample_args);
            match verdict {
                ReadCheckResult::Accept => {
                    let trimmed = FASTQRead::trim(
                        self.curr.seq.as_str(),
                        self.sample_args.trimmed_length,
                    );
                    match trimmed {
                        Ok(t) => {
                            let s = t.to_owned();
                            proof {
                                assert(next_accepted(lv, args, r_before) == Some(r_before));
                                assert(accepted_from(lv, args, r_before) == seq![s@]
                                    + accepted_from(lv, args, self.rec as int));
                                assert(vstd::utf8::is_ascii_chars(s@)) by {
                                    assert(forall|j: int|
                                        0 <= j < s@.len() ==> s@[j]
                                            == rec_seq(lv, r_before)[j]);
                                }
                            }
                            return Some(s);
                        },
                        Err(_) => {
                            proof {
                                assert(false);
                            }
                            return None;
                        },
                    }
                },
                ReadCheckResult::Reject => {
                    proof {
                        assert(next_accepted(lv, args, r_before) == next_accepted(
                            lv,
                            args,
                            r_before + 1,
                        ));
                        assert(accepted_from(lv, args, r_before) == accepted_from(
                            lv,
                            args,
                            r_before + 1,
                        ));
                    }
                },
                ReadCheckResult::Colorspace => {
                    proof {
                        assert(next_accepted(lv, args, r_before) is None);
                        assert(accepted_from(lv, args, r_before) =~= Seq::<Seq<char>>::empty());
                    }
                    let stop = self.lines.len() / 4;
                    self.rec = stop;
                    return None;
                },
            }
        }
    }
}

/// A small seedable pseudo-random source driving the reservoir
/// sampler: the same seed reproduces the same sample, so tests can
/// inject a fixed source. The sampler's structural guarantees hold
/// for every value this source returns; the uniformity of the sample
/// is as good as the source's draws, which here come from a 64-bit
/// linear congruential generator reduced modulo the bound (slightly
/// favoring small indexes when the bound does not divide the state
/// space).
#[derive(Debug, Clone, Copy)]
pub struct SampleRng {
    pub state: u64,
}

impl SampleRng {
    pub fn new(seed: u64) -> (r: SampleRng)
        ensures
            r.state == seed,
    {
        SampleRng { state: seed }
    }

    /// One step of a 64-bit linear congruential generator.
    fn step(&mut self) {
        let next: u128 = ((self.state as u128) * 6364136223846793005
            + 1442695040888963407) % 18446744073709551616;
        self.state = next as u64;
    }

    /// A pseudo-random index below `bound`: the next generator state,
    /// reduced modulo the bound.
    pub fn rand_index(&mut self, bound: usize) -> (r: usize)
        requires
            bound >= 1,
        ensures
            r < bound,
    {
        self.step();
        (self.state % (bound as u64)) as usize
    }
}

/// Every pool slot is a read drawn from a distinct position of the
/// accepted stream: `srcs` names, for each slot, the stream index it
/// was drawn from, and no index is kept twice.
pub open spec fn pool_sources_ok(acc: Seq<Seq<char>>, pool: Seq<Seq<char>>, srcs: Seq<int>) -> bool {
    &&& srcs.len() == pool.len()
    &&& forall|i: int, j: int| 0 <= i < j < srcs.len() ==> srcs[i] != srcs[j]
    &&& forall|i: int|
        0 <= i < srcs.len() ==> 0 <= #[trigger] srcs[i] < acc.len() && pool[i] == acc[srcs[i]]
}

impl FASTQReader {
    /// Draws a fixed-size sample from the stream of accepted reads in
    /// a single pass: the first `target_read_count` accepted reads
    /// fill the pool in order; the read at 0-based stream position
    /// `i` thereafter replaces the slot drawn uniformly from
    /// `0 ..= i` exactly when the draw lands inside the pool. Given
    /// uniform draws, every stream position is therefore retained
    /// with equal probability, and the expected number of
    /// replacements over a stream of `n` reads grows only as
    /// `k * ln(n / k)`. Slots never filled keep the empty-string
    /// sentinel. In particular the pool is never larger than the
    /// target; a stream shorter than the target is returned whole, in
    /// order, with no slot invented or lost; and a longer stream
    /// fills every slot from a distinct stream position.
    pub fn sample_random(self, rng: &mut SampleRng) -> (pool: Vec<String>)
        requires
            self.wf(),
            1 <= self.target_read_count <= usize::MAX as u64,
        ensures
            ({
                let k = self.target_read_count as int;
                let acc = accepted_from(
                    self.lines.deep_view(),
                    self.sample_args,
                    self.rec as int,
                );
                &&& pool@.len() == k
                &&& acc.len() <= k ==> pool.deep_view() =~~= acc + Seq::new(
                    (k - acc.len()) as nat,
                    |i: int| Seq::<char>::empty(),
                )
                &&& forall|i: int|
                    0 <= i < k ==> (acc.contains(#[trigger] pool.deep_view()[i])
                        || pool.deep_view()[i] == Seq::<char>::empty())
                &&& acc.len() >= k ==> exists|srcs: Seq<int>|
                    #[trigger] pool_sources_ok(acc, pool.deep_view(), srcs)
            }),
    {
        let mut reader = self;
        let ghost lv = reader.lines.deep_view();
        let ghost args0 = reader.sample_args;
        let ghost acc = accepted_from(lv, args0, reader.rec as int);
        let total_lines = reader.lines.len();
        proof {
            lemma_accepted_shape(lv, args0, reader.rec as int);
            assert(acc.len() <= total_lines as int);
        }
        let k = reader.target_read_count as usize;
        let mut pool: Vec<String> = Vec::new();
        let mut filled: usize = 0;
        let ghost mut srcs: Seq<int> = Seq::empty();

        // Fill phase: the first k accepted reads enter the pool in
        // stream order.
        while filled < k
            invariant
                reader.wf(),
                lv == reader.lines.deep_view(),
                args0 == reader.sample_args,
                k as u64 == self.target_read_count,
                acc == accepted_from(self.lines.deep_view(), self.sample_args, self.rec as int),
                filled <= k,
                filled <= acc.len(),
                pool@.len() == filled,
                pool.deep_view() =~~= acc.take(filled as int),
                accepted_from(lv, args0, reader.rec as int) == acc.skip(filled as int),
                srcs.len() == filled,
                forall|i: int| 0 <= i < filled ==> #[trigger] srcs[i] == i,
            decreases k - filled,
        {
            match reader.next() {
                None => {
                    proof {
                        assert(acc.skip(filled as int).len() == 0);
                        assert(acc.len() == filled);
                        assert(pool.deep_view() =~~= acc);
                    }
                    // Fewer accepted reads than the target: pad the
                    // remaining slots with the sentinel.
                    while filled < k
                        invariant
                            filled <= k,
                            acc.len() <= filled,
                            pool@.len() == filled,
                            pool.deep_view() =~~= acc + Seq::new(
                                (filled - acc.len()) as nat,
                                |i: int| Seq::<char>::empty(),
                            ),
                        decreases k - filled,
                    {
                        let ghost dv0 = pool.deep_view();
                        pool.push(String::new());
                        filled = filled + 1;
                        proof {
                            let dv = pool.deep_view();
                            let target = acc + Seq::new(
                                (filled - acc.len()) as nat,
                                |i: int| Seq::<char>::empty(),
                            );
                            assert(dv.len() == filled);
                            assert forall|i: int| 0 <= i < filled implies dv[i] == target[i] by {
                                if i < filled - 1 {
                                    assert(dv[i] == dv0[i]);
                                } else {
                                    assert(dv[i] == Seq::<char>::empty());
                                }
                            }
                            assert(dv =~~= target);
                        }
                    }
                    proof {
                        assert(forall|i: int|
                            0 <= i < k ==> (acc.contains(#[trigger] pool.deep_view()[i])
                                || pool.deep_view()[i] == Seq::<char>::empty()));
                    }
                    return pool;
                },
                Some(s) => {
                    proof {
                        let rest = acc.skip(filled as int);
                        assert(rest == seq![s@] + accepted_from(lv, args0, reader.rec as int));
                        assert(rest[0] == s@);
                        assert(acc[filled as int] == s@);
                        assert(accepted_from(lv, args0, reader.rec as int) =~= acc.skip(
                            filled as int + 1,
                        )) by {
                            assert(rest.drop_first() =~= acc.skip(filled as int + 1));
                            assert((seq![s@] + accepted_from(lv, args0, reader.rec as int))
                                .drop_first() =~= accepted_from(lv, args0, reader.rec as int));
                        }
                    }
                    pool.push(s);
                    proof {
                        srcs = srcs.push(filled as int);
                    }
                    filled = filled + 1;
                    proof {
                        assert(pool.deep_view() =~~= acc.take(filled as int));
                    }
                },
            }
        }

        // Replacement phase: each further accepted read draws a slot
        // uniformly from the stream seen so far and replaces it only
        // when the draw falls inside the pool.
        let mut seen: usize = k;
        let ghost mut m: int = k as int;
        proof {
            assert(forall|i: int|
                0 <= i < k ==> #[trigger] pool.deep_view()[i] == acc[i]);
            assert(forall|i: int|
                0 <= i < k ==> acc.contains(#[trigger] pool.deep_view()[i]));
            assert(forall|i: int| 0 <= i < k ==> pool.deep_view()[i] == acc[#[trigger] srcs[i]]);
        }
        loop
            invariant
                reader.wf(),
                lv == reader.lines.deep_view(),
                args0 == reader.sample_args,
                k as u64 == self.target_read_count,
                k >= 1,
                acc == accepted_from(self.lines.deep_view(), self.sample_args, self.rec as int),
                acc.len() <= total_lines as int,
                k as int <= m <= acc.len(),
                seen as int == m,
                pool@.len() == k,
                accepted_from(lv, args0, reader.rec as int) == acc.skip(m),
                forall|i: int| 0 <= i < k ==> acc.contains(#[trigger] pool.deep_view()[i]),
                m == k as int ==> pool.deep_view() =~~= acc.take(k as int),
                srcs.len() == k,
                forall|i: int| 0 <= i < k ==> 0 <= #[trigger] srcs[i] < m,
                forall|i: int, j: int| 0 <= i < j < k ==> srcs[i] != srcs[j],
                forall|i: int| 0 <= i < k ==> pool.deep_view()[i] == acc[#[trigger] srcs[i]],
            decreases acc.len() - m,
        {
            match reader.next() {
                None => {
                    proof {
                        assert(acc.skip(m).len() == 0);
                        assert(pool_sources_ok(acc, pool.deep_view(), srcs));
                        if acc.len() <= k as int {
                            assert(m == k as int);
                            assert(acc.take(k as int) =~= acc);
                            assert(pool.deep_view() =~~= acc + Seq::new(
                                (k - acc.len()) as nat,
                                |i: int| Seq::<char>::empty(),
                            ));
                        }
                    }
                    return pool;
                },
                Some(s) => {
                    proof {
                        let rest = acc.skip(m);
                        assert(rest == seq![s@] + accepted_from(lv, args0, reader.rec as int));
                        assert(rest[0] == s@);
                        assert(acc[m] == s@);
                        assert(acc.contains(s@));
                        assert(accepted_from(lv, args0, reader.rec as int) =~= acc.skip(m + 1))
                            by {
                            assert(rest.drop_first() =~= acc.skip(m + 1));
                            assert((seq![s@] + accepted_from(lv, args0, reader.rec as int))
                                .drop_first() =~= accepted_from(lv, args0, reader.rec as int));
                        }
                        assert(m < acc.len());
                        assert(seen < total_lines);
                        m = m + 1;
                    }
                    // `seen` is the 0-based position of `s` in the
                    // accepted stream.
                    let idx = rng.rand_index(seen + 1);
                    seen = seen + 1;
                    if idx < k {
                        let ghost dv0 = pool.deep_view();
                        pool.set(idx, s);
                        proof {
                            srcs = srcs.update(idx as int, m - 1);
                            assert forall|i: int|
                                0 <= i < k implies acc.contains(
                                #[trigger] pool.deep_view()[i],
                            ) by {
                                if i == idx as int {
                                    assert(pool.deep_view()[i] == s@);
                                } else {
                                    assert(pool.deep_view()[i] == dv0[i]);
                                }
                            }
                            assert forall|i: int|
                                0 <= i < k implies pool.deep_view()[i] == acc[
                                #[trigger] srcs[i]] by {
                                if i != idx as int {
                                    assert(pool.deep_view()[i] == dv0[i]);
                                }
                            }
                        }
                    }
                },
            }
        }
    }
}

/// The accepted stream padded with empty-string sentinels up to the
/// pool size `k`.
pub open spec fn padded(acc: Seq<Seq<char>>, k: int) -> Seq<Seq<char>>
    recommends
        acc.len() <= k,
{
    acc + Seq::new((k - acc.len()) as nat, |i: int| Seq::<char>::empty())
}

/// What the reservoir guarantees of a returned pool: exactly `k`
/// slots; each slot holds an accepted read or the sentinel; and a
/// stream no longer than the pool is returned whole, in order.
pub open spec fn sample_pool_ok(acc: Seq<Seq<char>>, k: int, pool: Seq<Seq<char>>) -> bool {
    &&& pool.len() == k
    &&& (acc.len() <= k ==> pool == padded(acc, k))
    &&& forall|i: int|
        0 <= i < pool.len() ==> (acc.contains(#[trigger] pool[i]) || pool[i]
            == Seq::<char>::empty())
    &&& acc.len() >= k ==> exists|srcs: Seq<int>| #[trigger] pool_sources_ok(acc, pool, srcs)
}

/// How many leading pool slots hold a real (nonempty) read; the first
/// sentinel stops aggregation.
pub open spec fn nonempty_prefix_len(pool: Seq<Seq<char>>) -> int
    decreases pool.len(),
{
    if pool.len() == 0 || pool.first().len() == 0 {
        0
    } else {
        1 + nonempty_prefix_len(pool.drop_first())
    }
}

pub proof fn lemma_nonempty_prefix_le_len(pool: Seq<Seq<char>>)
    ensures
        0 <= nonempty_prefix_len(pool) <= pool.len(),
        forall|j: int| 0 <= j < nonempty_prefix_len(pool) ==> #[trigger] pool[j].len() > 0,
    decreases pool.len(),
{
    if pool.len() > 0 && pool.first().len() > 0 {
        let rest = pool.drop_first();
        lemma_nonempty_prefix_le_len(rest);
        assert forall|j: int| 0 <= j < nonempty_prefix_len(pool) implies #[trigger] pool[j].len()
            > 0 by {
            if j > 0 {
                assert(rest[j - 1] == pool[j]);
            }
        }
    }
}

/// The nonempty prefix ends exactly at the first empty slot (or at
/// the end of the pool).
proof fn lemma_nonempty_prefix_at(pool: Seq<Seq<char>>, p: int)
    requires
        0 <= p <= pool.len(),
        forall|j: int| 0 <= j < p ==> #[trigger] pool[j].len() > 0,
        p < pool.len() ==> pool[p].len() == 0,
    ensures
        nonempty_prefix_len(pool) == p,
    decreases p,
{
    if p == 0 {
    } else {
        assert(pool[0].len() > 0);
        let rest = pool.drop_first();
        assert(forall|j: int| 0 <= j < p - 1 ==> #[trigger] rest[j].len() > 0) by {
            assert(forall|j: int| 0 <= j < p - 1 ==> rest[j] == pool[j + 1]);
        }
        lemma_nonempty_prefix_at(rest, p - 1);
    }
}

/// The model of one full aggregation run over a sample pool: a table
/// as wide as the first pool entry, filled from the pool slots before
/// the first sentinel, then converted to percentages.
pub open spec fn comp_of_pool(pool: Seq<Seq<char>>) -> Seq<crate::BaseCompCol>
    recommends
        pool.len() >= 1,
{
    crate::extract_all(
        crate::init_cols(pool[0].len() as int),
        pool.take(nonempty_prefix_len(pool)),
    ).map(|i: int, c: crate::BaseCompCol| crate::pct_col(c))
}

/// The accepted reads can be aggregated without fault: every accepted
/// read holds only `ATGCN` symbols, and all accepted reads have the
/// same length (so the table cut to the first read's width fits them
/// all).
pub open spec fn reads_extractable(acc: Seq<Seq<char>>) -> bool {
    &&& forall|i: int, j: int|
        0 <= i < acc.len() && 0 <= j < acc[i].len() ==> crate::valid_base(#[trigger] acc[i][j])
    &&& forall|i: int, j: int|
        #![trigger acc[i], acc[j]]
        0 <= i < acc.len() && 0 <= j < acc.len() ==> acc[i].len() == acc[j].len()
}

/// Index of the first pool slot that holds the empty-string sentinel,
/// or the pool length when every slot holds a real read.
fn nonempty_prefix(v: &Vec<String>) -> (p: usize)
    ensures
        p == nonempty_prefix_len(v.deep_view()),
{
    let dvlen = v.len();
    let mut p: usize = 0;
    while p < dvlen
        invariant
            dvlen == v.deep_view().len(),
            p <= dvlen,
            forall|j: int| 0 <= j < p ==> #[trigger] v.deep_view()[j].len() > 0,
        decreases dvlen - p,
    {
        if v[p].as_str().is_empty() {
            proof {
                lemma_nonempty_prefix_at(v.deep_view(), p as int);
            }
            return p;
        }
        p = p + 1;
    }
    proof {
        lemma_nonempty_prefix_at(v.deep_view(), p as int);
    }
    p
}

/// Draws the sample, aggregates the sampled reads into a fresh table
/// sized after the first sampled read, stopping at the first
/// sentinel, and converts every column to percentages. Returns the
/// table and how many reads were aggregated. When the accepted stream
/// is no longer than the target the result is deterministic: the
/// whole stream is aggregated.
pub fn run_core(fastq_reader: FASTQReader, rng: &mut SampleRng) -> (r: (crate::BaseComp, u64))
    requires
        fastq_reader.wf(),
        1 <= fastq_reader.target_read_count <= usize::MAX as u64,
        reads_extractable(
            accepted_from(
                fastq_reader.lines.deep_view(),
                fastq_reader.sample_args,
                fastq_reader.rec as int,
            ),
        ),
    ensures
        ({
            let k = fastq_reader.target_read_count as int;
            let acc = accepted_from(
                fastq_reader.lines.deep_view(),
                fastq_reader.sample_args,
                fastq_reader.rec as int,
            );
            &&& exists|pool: Seq<Seq<char>>|
                {
                    &&& #[trigger] sample_pool_ok(acc, k, pool)
                    &&& r.0.lib@ == comp_of_pool(pool)
                    &&& r.1 == nonempty_prefix_len(pool)
                }
            &&& r.1 <= k
            &&& acc.len() <= k ==> {
                &&& r.0.lib@ == comp_of_pool(padded(acc, k))
                &&& r.1 == nonempty_prefix_len(padded(acc, k))
            }
        }),
{
    let ghost acc = accepted_from(
        fastq_reader.lines.deep_view(),
        fastq_reader.sample_args,
        fastq_reader.rec as int,
    );
    let ghost k = fastq_reader.target_read_count as int;
    let sampled_seqs = fastq_reader.sample_random(rng);
    let ghost pool = sampled_seqs.deep_view();
    proof {
        assert(sample_pool_ok(acc, k, pool));
        lemma_nonempty_prefix_le_len(pool);
    }

    let first_len = sampled_seqs[0].as_str().unicode_len();
    let mut base_comp = crate::BaseComp::init(first_len);
    let p = nonempty_prefix(&sampled_seqs);

    proof {
        // Every slot of the nonempty prefix is an accepted read, so it
        // holds only valid bases and is exactly as long as the first
        // slot.
        assert forall|t: int| 0 <= t < p implies pool[t].len() == first_len
            && (forall|j: int| 0 <= j < pool[t].len() ==> crate::valid_base(#[trigger] pool[t][j]))
        by {
            assert(pool[t].len() > 0);
            assert(acc.contains(pool[t]));
            let it = choose|it: int| 0 <= it < acc.len() && acc[it] == pool[t];
            assert(pool[0].len() > 0);
            assert(acc.contains(pool[0]));
            let i0 = choose|i0: int| 0 <= i0 < acc.len() && acc[i0] == pool[0];
            assert(acc[it].len() == acc[i0].len());
        }
    }

    let mut lines_read: u64 = 0;
    let mut t: usize = 0;
    while t < p
        invariant
            pool == sampled_seqs.deep_view(),
            p == nonempty_prefix_len(pool),
            0 <= p <= pool.len(),
            t <= p,
            pool.len() == k,
            1 <= k <= usize::MAX as u64,
            first_len == pool[0].len(),
            forall|t2: int|
                0 <= t2 < p ==> #[trigger] pool[t2].len() == first_len,
            forall|t2: int, j: int|
                0 <= t2 < p && 0 <= j < pool[t2].len() ==> crate::valid_base(
                    #[trigger] pool[t2][j],
                ),
            base_comp.lib@ == crate::extract_all(
                crate::init_cols(first_len as int),
                pool.take(t as int),
            ),
            base_comp.lib@.len() == first_len,
            forall|j: int|
                0 <= j < base_comp.lib@.len() ==> crate::col_sum(
                    #[trigger] base_comp.lib@[j].bases,
                ) <= t,
            lines_read == t,
        decreases p - t,
    {
        let ghost cols_before = base_comp.lib@;
        let s: &String = &sampled_seqs[t];
        proof {
            assert(s@ == pool[t as int]);
            assert(s@.len() == first_len);
        }
        base_comp.extract(s.as_str());
        proof {
            assert(pool.take(t as int + 1).drop_last() =~= pool.take(t as int));
            assert(pool.take(t as int + 1) =~= pool.take(t as int).push(pool[t as int]));
            crate::lemma_extract_all_push(
                crate::init_cols(first_len as int),
                pool.take(t as int),
                pool[t as int],
            );
            assert(base_comp.lib@ == crate::extract_all(
                crate::init_cols(first_len as int),
                pool.take(t as int + 1),
            ));
        }
        lines_read = lines_read + 1;
        t = t + 1;
    }

    // Convert each column to percentages.
    let ghost counted = base_comp.lib@;
    let n_cols = base_comp.lib.len();
    let mut i: usize = 0;
    while i < n_cols
        invariant
            n_cols == base_comp.lib@.len(),
            i <= n_cols,
            counted.len() == n_cols,
            forall|j: int| 0 <= j < i ==> base_comp.lib@[j] == crate::pct_col(#[trigger] counted[j]),
            forall|j: int| i <= j < n_cols ==> base_comp.lib@[j] == #[trigger] counted[j],
        decreases n_cols - i,
    {
        let mut col = base_comp.lib[i];
        proof {
            crate::lemma_pct_bases_bounds(col.bases);
        }
        col.bases.percentage();
        base_comp.lib.set(i, col);
        i = i + 1;
    }

    proof {
        assert(base_comp.lib@ =~= counted.map(|i2: int, c: crate::BaseCompCol| crate::pct_col(c)));
        assert(base_comp.lib@ == comp_of_pool(pool));
        assert(lines_read == nonempty_prefix_len(pool));
        if acc.len() <= k {
            assert(pool == padded(acc, k));
        }
    }
    (base_comp, lines_read)
}

/// Runs the pipeline and serializes the resulting table as JSON.
/// Returns the JSON text and the number of reads aggregated.
pub fn run_json(fastq_reader: FASTQReader, rng: &mut SampleRng) -> (r: (String, u64))
    requires
        fastq_reader.wf(),
        1 <= fastq_reader.target_read_count <= usize::MAX as u64,
        reads_extractable(
            accepted_from(
                fastq_reader.lines.deep_view(),
                fastq_reader.sample_args,
                fastq_reader.rec as int,
            ),
        ),
    ensures
        ({
            let k = fastq_reader.target_read_count as int;
            let acc = accepted_from(
                fastq_reader.lines.deep_view(),
                fastq_reader.sample_args,
                fastq_reader.rec as int,
            );
            &&& exists|pool: Seq<Seq<char>>|
                {
                    &&& #[trigger] sample_pool_ok(acc, k, pool)
                    &&& r.0@ == crate::json_base_comp(comp_of_pool(pool))
                    &&& r.1 == nonempty_prefix_len(pool)
                }
            &&& r.1 <= k
            &&& acc.len() <= k ==> {
                &&& r.0@ == crate::json_base_comp(comp_of_pool(padded(acc, k)))
                &&& r.1 == nonempty_prefix_len(padded(acc, k))
            }
        }),
{
    let ghost acc = accepted_from(
        fastq_reader.lines.deep_view(),
        fastq_reader.sample_args,
        fastq_reader.rec as int,
    );
    let ghost k = fastq_reader.target_read_count as int;
    let core = run_core(fastq_reader, rng);
    let mut comp = core.0;
    let lines_read = core.1;
    let ghost pool = choose|pool: Seq<Seq<char>>|
        {
            &&& #[trigger] sample_pool_ok(acc, k, pool)
            &&& comp.lib@ == comp_of_pool(pool)
            &&& lines_read == nonempty_prefix_len(pool)
        };
    let s = comp.jsonify();
    proof {
        assert(sample_pool_ok(acc, k, pool) && s@ == crate::json_base_comp(comp_of_pool(pool))
            && lines_read == nonempty_prefix_len(pool));
    }
    (s, lines_read)
}

/// Tab-separated rendering of one column's five values, in the fixed
/// order A, T, G, C, N.
pub open spec fn tsv_bases(b: crate::BaseCompColBases) -> Seq<char> {
    crate::decimal::spec_dec(b.A as int) + "\t"@ + crate::decimal::spec_dec(b.T as int) + "\t"@
        + crate::decimal::spec_dec(b.G as int) + "\t"@ + crate::decimal::spec_dec(b.C as int)
        + "\t"@ + crate::decimal::spec_dec(b.N as int)
}

/// Tab-separated rendering of a whole table: the columns' values in
/// position order, tab-separated throughout, with no trailing tab.
pub open spec fn tsv_cols(cols: Seq<crate::BaseCompCol>) -> Seq<char>
    decreases cols.len(),
{
    if cols.len() == 0 {
        Seq::empty()
    } else if cols.len() == 1 {
        tsv_bases(cols[0].bases)
    } else {
        tsv_cols(cols.drop_last()) + "\t"@ + tsv_bases(cols.last().bases)
    }
}

/// Renders one column's five values, tab-separated.
fn tsv_bases_string(b: &crate::BaseCompColBases) -> (r: String)
    ensures
        r@ == tsv_bases(*b),
{
    let mut r = String::new();
    let sa = crate::decimal::usize_to_string(b.A);
    r.append(sa.as_str());
    r.append("\t");
    let st = crate::decimal::usize_to_string(b.T);
    r.append(st.as_str());
    r.append("\t");
    let sg = crate::decimal::usize_to_string(b.G);
    r.append(sg.as_str());
    r.append("\t");
    let sc = crate::decimal::usize_to_string(b.C);
    r.append(sc.as_str());
    r.append("\t");
    let sn = crate::decimal::usize_to_string(b.N);
    r.append(sn.as_str());
    proof {
        assert(r@ =~= tsv_bases(*b));
    }
    r
}

/// Runs the pipeline and serializes the resulting table as TSV.
/// Returns the TSV text and the number of reads aggregated.
pub fn run_tsv(fastq_reader: FASTQReader, rng: &mut SampleRng) -> (r: (String, u64))
    requires
        fastq_reader.wf(),
        1 <= fastq_reader.target_read_count <= usize::MAX as u64,
        reads_extractable(
            accepted_from(
                fastq_reader.lines.deep_view(),
                fastq_reader.sample_args,
                fastq_reader.rec as int,
            ),
        ),
    ensures
        ({
            let k = fastq_reader.target_read_count as int;
            let acc = accepted_from(
                fastq_reader.lines.deep_view(),
                fastq_reader.sample_args,
                fastq_reader.rec as int,
            );
            &&& exists|pool: Seq<Seq<char>>|
                {
                    &&& #[trigger] sample_pool_ok(acc, k, pool)
                    &&& r.0@ == tsv_cols(comp_of_pool(pool))
                    &&& r.1 == nonempty_prefix_len(pool)
                }
            &&& r.1 <= k
            &&& acc.len() <= k ==> {
                &&& r.0@ == tsv_cols(comp_of_pool(padded(acc, k)))
                &&& r.1 == nonempty_prefix_len(padded(acc, k))
            }
        }),
{
    let ghost acc = accepted_from(
        fastq_reader.lines.deep_view(),
        fastq_reader.sample_args,
        fastq_reader.rec as int,
    );
    let ghost k = fastq_reader.target_read_count as int;
    let core = run_core(fastq_reader, rng);
    let comp = core.0;
    let lines_read = core.1;
    let ghost pool = choose|pool: Seq<Seq<char>>|
        {
            &&& #[trigger] sample_pool_ok(acc, k, pool)
            &&& comp.lib@ == comp_of_pool(pool)
            &&& lines_read == nonempty_prefix_len(pool)
        };

    let mut s = String::new();
    let n = comp.lib.len();
    let mut i: usize = 0;
    while i < n
        invariant
            n == comp.lib@.len(),
            i <= n,
            s@ == tsv_cols(comp.lib@.take(i as int)),
        decreases n - i,
    {
        if i > 0 {
            s.append("\t");
        }
        let col = comp.lib[i];
        let cs = tsv_bases_string(&col.bases);
        s.append(cs.as_str());
        proof {
            let cols = comp.lib@;
            let prefix = cols.take(i as int + 1);
            assert(prefix.drop_last() =~= cols.take(i as int));
            assert(prefix.last() == cols[i as int]);
            if i == 0 {
                assert(tsv_cols(cols.take(0int)) =~= Seq::<char>::empty());
                assert(s@ =~= tsv_cols(prefix));
            } else {
                assert(s@ =~= tsv_cols(prefix));
            }
        }
        i = i + 1;
    }
    proof {
        assert(comp.lib@.take(n as int) =~= comp.lib@);
        assert(sample_pool_ok(acc, k, pool) && s@ == tsv_cols(comp_of_pool(pool)) && lines_read
            == nonempty_prefix_len(pool));
    }
    (s, lines_read)
}

} // verus!
