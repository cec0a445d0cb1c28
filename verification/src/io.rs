//! Event logs: lines, digests, and what is written before what is decided.
use crate::engine::Engine;
use crate::error::Error;
use crate::number::Real;
use crate::paper::{journal_views, Journal};
use crate::text::is_hex;
use crate::types::Event;
use vstd::prelude::*;

verus! {

/// The byte that ends a line.
pub const NEWLINE: u8 = 10;

/// Ends a document with a newline.
pub fn json_line(document: Vec<u8>) -> (r: Vec<u8>)
    ensures
        r@ == document@.push(NEWLINE),
{
    let mut out = document;
    out.push(NEWLINE);
    out
}

/// The first place, from `i` on, at which bytes hold a newline.
pub open spec fn newline_from(bytes: Seq<u8>, i: int) -> Option<int>
    decreases bytes.len() - i,
{
    if i < 0 || i >= bytes.len() {
        None
    } else if bytes[i] == NEWLINE {
        Some(i)
    } else {
        newline_from(bytes, i + 1)
    }
}

proof fn lemma_newline(bytes: Seq<u8>, i: int)
    requires
        0 <= i <= bytes.len(),
    ensures
        match newline_from(bytes, i) {
            Some(k) => i <= k < bytes.len() && bytes[k] == NEWLINE && forall|j: int|
                i <= j < k ==> bytes[j] != NEWLINE,
            None => forall|j: int| i <= j < bytes.len() ==> bytes[j] != NEWLINE,
        },
    decreases bytes.len() - i,
{
    if i < bytes.len() && bytes[i] != NEWLINE {
        lemma_newline(bytes, i + 1);
    }
}

/// The complete lines of a log, and how many bytes they take up. What stands behind the last
/// newline is no line.
pub open spec fn complete(bytes: Seq<u8>) -> (Seq<Seq<u8>>, nat)
    decreases bytes.len(),
{
    match newline_from(bytes, 0) {
        None => (Seq::empty(), 0),
        Some(k) => if 0 <= k < bytes.len() {
            let (lines, used) = complete(bytes.skip(k + 1));
            (seq![bytes.take(k)] + lines, used + (k + 1) as nat)
        } else {
            (Seq::empty(), 0)
        },
    }
}

/// The contents of a list of byte strings.
pub open spec fn byte_views(list: Seq<Vec<u8>>) -> Seq<Seq<u8>> {
    list.map_values(|v: Vec<u8>| v@)
}

/// A part of a byte string.
fn slice(bytes: &Vec<u8>, from: usize, to: usize) -> (r: Vec<u8>)
    requires
        from <= to <= bytes.len(),
    ensures
        r@ == bytes@.subrange(from as int, to as int),
{
    let mut out: Vec<u8> = Vec::new();
    let mut i: usize = from;
    while i < to
        invariant
            from <= i <= to <= bytes.len(),
            out@ == bytes@.subrange(from as int, i as int),
        decreases to - i,
    {
        out.push(bytes[i]);
        assert(bytes@.subrange(from as int, i + 1) =~= bytes@.subrange(from as int, i as int).push(
            bytes@[i as int],
        ));
        i = i + 1;
    }
    out
}

/// The complete lines of a log, and how many bytes they take up.
pub fn complete_lines(bytes: &Vec<u8>) -> (r: (Vec<Vec<u8>>, usize))
    ensures
        byte_views(r.0@) == complete(bytes@).0,
        r.1 == complete(bytes@).1,
{
    let mut lines: Vec<Vec<u8>> = Vec::new();
    let mut start: usize = 0;
    let mut i: usize = 0;
    assert(byte_views(lines@) =~= Seq::<Seq<u8>>::empty());
    assert(bytes@.skip(0) =~= bytes@);
    assert(Seq::<Seq<u8>>::empty() + complete(bytes@).0 =~= complete(bytes@).0);
    while i < bytes.len()
        invariant
            start <= i <= bytes.len(),
            forall|j: int| start <= j < i ==> bytes@[j] != NEWLINE,
            complete(bytes@).0 == byte_views(lines@) + complete(bytes@.skip(start as int)).0,
            complete(bytes@).1 == start + complete(bytes@.skip(start as int)).1,
        decreases bytes.len() - i,
    {
        if bytes[i] == NEWLINE {
            let ghost rest = bytes@.skip(start as int);
            let ghost before = lines@;
            let line = slice(bytes, start, i);
            proof {
                lemma_newline(rest, 0);
                let k = i - start;
                assert(rest[k] == NEWLINE);
                assert(forall|j: int| 0 <= j < k ==> rest[j] == bytes@[start + j]);
                assert(newline_from(rest, 0) == Some(k));
                assert(rest.take(k) =~= line@);
                assert(rest.skip(k + 1) =~= bytes@.skip(i + 1));
            }
            lines.push(line);
            start = i + 1;
            proof {
                let tail = complete(bytes@.skip(start as int)).0;
                assert(byte_views(lines@) =~= byte_views(before).push(line@));
                assert(byte_views(before) + (seq![line@] + tail) =~= byte_views(lines@) + tail);
            }
        }
        i = i + 1;
    }
    proof {
        let rest = bytes@.skip(start as int);
        lemma_newline(rest, 0);
        assert(forall|j: int| 0 <= j < rest.len() ==> rest[j] == bytes@[start + j]);
        assert(byte_views(lines@) + Seq::<Seq<u8>>::empty() =~= byte_views(lines@));
    }
    (lines, start)
}

/// The lines of a log, each ended by a newline.
pub open spec fn framed(lines: Seq<Seq<u8>>) -> Seq<u8>
    decreases lines.len(),
{
    if lines.len() == 0 {
        Seq::empty()
    } else {
        lines.first().push(NEWLINE) + framed(lines.drop_first())
    }
}

/// Whether bytes hold no newline.
pub open spec fn is_unbroken(bytes: Seq<u8>) -> bool {
    forall|i: int| 0 <= i < bytes.len() ==> #[trigger] bytes[i] != NEWLINE
}

/// Reading a log back gives the lines that were written to it, whatever part of one more line was
/// written behind them.
pub proof fn law_read_gives_back_complete_lines(lines: Seq<Seq<u8>>, tail: Seq<u8>)
    requires
        forall|i: int| 0 <= i < lines.len() ==> is_unbroken(#[trigger] lines[i]),
        is_unbroken(tail),
    ensures
        complete(framed(lines) + tail) == (lines, framed(lines).len()),
    decreases lines.len(),
{
    let bytes = framed(lines) + tail;
    lemma_newline(bytes, 0);
    if lines.len() == 0 {
        assert(bytes =~= tail);
        assert(lines =~= Seq::<Seq<u8>>::empty());
    } else {
        let first = lines.first();
        let k = first.len() as int;
        assert(bytes[k] == NEWLINE);
        assert(is_unbroken(lines[0]));
        assert(forall|j: int| 0 <= j < k ==> bytes[j] == first[j]);
        assert(newline_from(bytes, 0) == Some(k));
        assert(bytes.take(k) =~= first);
        assert(bytes.skip(k + 1) =~= framed(lines.drop_first()) + tail);
        assert forall|i: int| 0 <= i < lines.drop_first().len() implies is_unbroken(
            #[trigger] lines.drop_first()[i],
        ) by {
            assert(lines.drop_first()[i] == lines[i + 1]);
        }
        law_read_gives_back_complete_lines(lines.drop_first(), tail);
        assert(seq![first] + lines.drop_first() =~= lines);
    }
}

/// A hexadecimal digit.
pub open spec fn hex_digit(n: u8) -> char {
    if n < 10 {
        (48 + n) as char
    } else {
        (87 + n) as char
    }
}

/// Bytes as hexadecimal digits, two for each.
pub open spec fn hex_of(bytes: Seq<u8>) -> Seq<char> {
    Seq::new(
        bytes.len() * 2,
        |i: int|
            hex_digit(
                if i % 2 == 0 {
                    (bytes[i / 2] / 16) as u8
                } else {
                    (bytes[i / 2] % 16) as u8
                },
            ),
    )
}

fn hex_char(n: u8) -> (r: char)
    requires
        n < 16,
    ensures
        r == hex_digit(n),
{
    if n < 10 {
        (48 + n) as char
    } else {
        (87 + n) as char
    }
}

/// Bytes as hexadecimal digits, two for each.
pub fn hex(bytes: &Vec<u8>) -> (r: String)
    ensures
        r@ == hex_of(bytes@),
{
    let mut out = String::new();
    let mut i: usize = 0;
    assert(out@ =~= hex_of(bytes@.take(0)));
    while i < bytes.len()
        invariant
            i <= bytes.len(),
            out@ == hex_of(bytes@.take(i as int)),
        decreases bytes.len() - i,
    {
        let b: u8 = bytes[i];
        out.push(hex_char(b / 16));
        out.push(hex_char(b % 16));
        assert(out@ =~= hex_of(bytes@.take(i + 1)));
        i = i + 1;
    }
    assert(bytes@.take(bytes@.len() as int) =~= bytes@);
    out
}

/// The SHA-256 digest of bytes.
pub uninterp spec fn sha256(bytes: Seq<u8>) -> Seq<u8>;

/// Calls `sha2::Sha256::digest`. Claims that the digest depends on the bytes alone and is 32 bytes
/// long.
#[verifier::external_body]
fn digest(bytes: &Vec<u8>) -> (r: Vec<u8>)
    ensures
        r@ == sha256(bytes@),
        r@.len() == 32,
{
    <sha2::Sha256 as sha2::Digest>::digest(bytes).to_vec()
}

/// The SHA-256 digest of bytes in hexadecimal digits, of which there are 64.
pub fn hash(bytes: &Vec<u8>) -> (r: String)
    ensures
        r@ == hex_of(sha256(bytes@)),
        is_hex(r@, 64),
{
    hex(&digest(bytes))
}

/// Takes in an event that was, or was not, written to the log first. What was not written changes
/// nothing and causes nothing.
pub fn write_then_apply<R: Real>(written: bool, engine: &mut Engine<R>, e: &Event<R>) -> (r: Result<
    Vec<Journal<R>>,
    Error,
>)
    requires
        old(engine)@.wf(),
        written ==> old(engine).config.fits(e.recv_ns),
    ensures
        final(engine)@.wf(),
        if !written {
            r is Err && r->Err_0 == Error::WriteFailed && final(engine)@ == old(engine)@
        } else {
            &&& final(engine)@ == old(engine)@.after(e@).0
            &&& match old(engine)@.after(e@).1 {
                Ok((_, rows)) => r is Ok && journal_views(r->Ok_0@) == rows,
                Err(fault) => r is Err && r->Err_0 == fault,
            }
        },
{
    if !written {
        return Err(Error::WriteFailed);
    }
    match engine.on_event(e) {
        Err(fault) => Err(fault),
        Ok((_, rows)) => Ok(rows),
    }
}

/// Checks that a run that is not resumed would overwrite nothing.
pub fn check_fresh(checkpoint_exists: bool, journal_exists: bool) -> (r: Result<(), Error>)
    ensures
        r == if checkpoint_exists || journal_exists {
            Err::<(), Error>(Error::ExistingArtifacts)
        } else {
            Ok::<(), Error>(())
        },
{
    if checkpoint_exists || journal_exists {
        Err(Error::ExistingArtifacts)
    } else {
        Ok(())
    }
}

/// The version of the checkpoints.
pub const CHECKPOINT_VERSION: u32 = 1;

/// Where a checkpoint stands in the two files of a run.
#[derive(Clone, Copy, Debug, PartialEq, Eq, Structural)]
pub struct Offsets {
    pub log: u64,
    pub journal: u64,
}

/// Checks that a run can go on from a checkpoint: it has this version, the run has the same
/// configuration and models, and the files still hold what the checkpoint covers.
pub fn check_resume(version: u32, same_setup: bool, lengths: Offsets, covered: Offsets) -> (r:
    Result<(), Error>)
    ensures
        r == if version != CHECKPOINT_VERSION {
            Err::<(), Error>(Error::CheckpointVersion)
        } else if !same_setup {
            Err::<(), Error>(Error::ResumeMismatch)
        } else if lengths.log < covered.log || lengths.journal < covered.journal {
            Err::<(), Error>(Error::CheckpointBeyondFiles)
        } else {
            Ok::<(), Error>(())
        },
{
    if version != CHECKPOINT_VERSION {
        Err(Error::CheckpointVersion)
    } else if !same_setup {
        Err(Error::ResumeMismatch)
    } else if lengths.log < covered.log || lengths.journal < covered.journal {
        Err(Error::CheckpointBeyondFiles)
    } else {
        Ok(())
    }
}

/// The background work on checkpoints.
#[derive(Clone, Copy, Debug, PartialEq, Eq, Structural)]
pub enum Job {
    Idle,
    Running,
    Finished,
}

/// What a request for a checkpoint in the background does: whether it collects the finished job,
/// and whether it starts another. Only one runs at a time.
#[derive(Clone, Copy, Debug, PartialEq, Eq, Structural)]
pub struct Plan {
    pub collect: bool,
    pub start: bool,
}

/// Plans a checkpoint in the background.
pub fn plan_checkpoint(job: Job) -> (r: Plan)
    ensures
        r.collect == (job == Job::Finished),
        r.start == (job != Job::Running),
{
    Plan { collect: job == Job::Finished, start: job != Job::Running }
}

} // verus!
