//! the buffers between a spawned subprocess and the lua layer.
//!
//! reader and writer threads (in the companion crate) pump the child's
//! pipes; the lua side only ever touches these buffers, so nothing it
//! calls blocks. reads follow the `file:read` convention: an empty chunk
//! when nothing is buffered right now, `None` at true end of stream.

use std::collections::VecDeque;

use vstd::prelude::*;
use vstd::string::StringExecFns;

verus! {

/// per-stream cap: a full buffer stalls the child's pipe (natural
/// backpressure) instead of growing without bound on a chatty child
pub const BUFFER_CAP: usize = 4194304;

/// the most bytes the writer thread hands to the child at once
pub const WRITE_CHUNK: usize = 8192;

/// one direction of a child's stdio
pub struct Buffer {
    pub data: VecDeque<u8>,
    /// no more data will ever cross this buffer: the stream hit eof, the
    /// pipe broke, or the process object was dropped
    pub closed: bool,
}

impl Default for Buffer {
    /// an open, empty buffer
    fn default() -> (b: Buffer)
        ensures
            b.data@ == Seq::<u8>::empty(),
            !b.closed,
    {
        Buffer { data: VecDeque::new(), closed: false }
    }
}

/// the chunk a read with limit `max` takes from `data`: all of it, or the
/// first `max` bytes
pub open spec fn take_len(data: Seq<u8>, max: Option<usize>) -> int {
    match max {
        Some(m) => if m < data.len() {
            m as int
        } else {
            data.len() as int
        },
        None => data.len() as int,
    }
}

/// what a read takes: an empty chunk from an open buffer holding
/// nothing, nothing at all from a closed and drained one, else the first
/// `take_len` bytes
pub open spec fn take_result(data: Seq<u8>, closed: bool, max: Option<usize>) -> Option<Seq<u8>> {
    if data.len() == 0 {
        if closed {
            None
        } else {
            Some(Seq::empty())
        }
    } else {
        Some(data.take(take_len(data, max)))
    }
}

impl Buffer {
    /// the lua side's read: up to `max` bytes (all when `None`); an empty
    /// chunk when an open buffer holds nothing, `None` once it is closed
    /// and drained
    pub fn take(&mut self, max: Option<usize>) -> (chunk: Option<Vec<u8>>)
        ensures
            final(self).closed == old(self).closed,
            match chunk {
                Some(c) => take_result(old(self).data@, old(self).closed, max) == Some(c@),
                None => take_result(old(self).data@, old(self).closed, max) is None,
            },
            final(self).data@ == old(self).data@.skip(take_len(old(self).data@, max)),
    {
        if self.data.len() == 0 {
            return if self.closed {
                None
            } else {
                Some(Vec::new())
            };
        }
        let n = match max {
            Some(m) => if m < self.data.len() {
                m
            } else {
                self.data.len()
            },
            None => self.data.len(),
        };
        let mut out: Vec<u8> = Vec::new();
        let ghost start = self.data@;
        while out.len() < n
            invariant
                out@.len() <= n,
                n <= start.len(),
                out@ == start.take(out@.len() as int),
                self.data@ == start.skip(out@.len() as int),
                self.closed == old(self).closed,
            decreases n - out@.len(),
        {
            let b = self.data.pop_front().unwrap();
            assert(start.take(out@.len() + 1int) =~= start.take(out@.len() as int).push(b));
            out.push(b);
        }
        Some(out)
    }

    /// the lua side's write toward the child's stdin: refused once the
    /// stream is closed, or when it would overfill the buffer
    pub fn write(&mut self, data: &[u8]) -> (r: Result<(), String>)
        ensures
            final(self).closed == old(self).closed,
            match r {
                Ok(()) => !old(self).closed && old(self).data@.len() + data@.len() <= BUFFER_CAP
                    && final(self).data@ == old(self).data@ + data@,
                Err(e) => final(self).data@ == old(self).data@ && (if old(self).closed {
                    e@ == "stdin is closed"@
                } else {
                    old(self).data@.len() + data@.len() > BUFFER_CAP && e@ == "stdin buffer is full"@
                }),
            },
    {
        if self.closed {
            return Err("stdin is closed".to_owned());
        }
        if data.len() > BUFFER_CAP || self.data.len() > BUFFER_CAP - data.len() {
            return Err("stdin buffer is full".to_owned());
        }
        let mut i: usize = 0;
        while i < data.len()
            invariant
                i <= data@.len(),
                self.data@ == old(self).data@ + data@.take(i as int),
                self.closed == old(self).closed,
            decreases data@.len() - i,
        {
            self.data.push_back(data[i]);
            assert(data@.take(i + 1) =~= data@.take(i as int).push(data@[i as int]));
            i = i + 1;
        }
        assert(data@.take(i as int) =~= data@);
        Ok(())
    }

    /// whether a reader thread must wait before adding more: the buffer
    /// is at its cap and still open
    pub fn must_wait(&self) -> (w: bool)
        ensures
            w == (self.data@.len() >= BUFFER_CAP && !self.closed),
    {
        self.data.len() >= BUFFER_CAP && !self.closed
    }

    /// a reader thread's delivery: appended unless the buffer was closed
    /// meanwhile; returns whether it was taken
    pub fn accept(&mut self, chunk: &[u8]) -> (taken: bool)
        ensures
            taken == !old(self).closed,
            final(self).closed == old(self).closed,
            final(self).data@ == (if taken {
                old(self).data@ + chunk@
            } else {
                old(self).data@
            }),
    {
        if self.closed {
            return false;
        }
        let mut i: usize = 0;
        while i < chunk.len()
            invariant
                i <= chunk@.len(),
                self.data@ == old(self).data@ + chunk@.take(i as int),
                self.closed == old(self).closed,
            decreases chunk@.len() - i,
        {
            self.data.push_back(chunk[i]);
            assert(chunk@.take(i + 1) =~= chunk@.take(i as int).push(chunk@[i as int]));
            i = i + 1;
        }
        assert(chunk@.take(i as int) =~= chunk@);
        true
    }

    /// the writer thread's next chunk for the child: up to `WRITE_CHUNK`
    /// bytes off the front, or `None` when nothing is queued (which, once
    /// the buffer is closed, is the child's eof)
    pub fn next_chunk(&mut self) -> (chunk: Option<Vec<u8>>)
        ensures
            final(self).closed == old(self).closed,
            match chunk {
                Some(c) => old(self).data@.len() > 0 && c@ == old(self).data@.take(
                    take_len(old(self).data@, Some(WRITE_CHUNK)),
                ),
                None => old(self).data@.len() == 0,
            },
            final(self).data@ == old(self).data@.skip(take_len(old(self).data@, Some(WRITE_CHUNK))),
    {
        if self.data.len() == 0 {
            return None;
        }
        self.take(Some(WRITE_CHUNK))
    }

    /// no more data crosses: closes the stream
    pub fn close(&mut self)
        ensures
            final(self).closed,
            final(self).data@ == old(self).data@,
    {
        self.closed = true;
    }

    /// the stream is gone for good (a broken pipe, a dropped process):
    /// closed and emptied, so later writes fail instead of queueing
    pub fn shut(&mut self)
        ensures
            final(self).closed,
            final(self).data@ == Seq::<u8>::empty(),
    {
        self.closed = true;
        self.data.clear();
    }
}

/// how to spawn: in `cwd`, with `env` over the inherited environment, and
/// with stderr interleaved into the stdout stream (like `2>&1`) when
/// `merge_stderr`
pub struct SpawnOptions {
    pub cwd: Option<String>,
    pub env: Vec<(String, String)>,
    pub merge_stderr: bool,
}

impl Default for SpawnOptions {
    /// the parent's directory and environment, stderr apart
    fn default() -> (o: SpawnOptions)
        ensures
            o.cwd is None,
            o.env@.len() == 0,
            !o.merge_stderr,
    {
        SpawnOptions { cwd: None, env: Vec::new(), merge_stderr: false }
    }
}

/// how `{:?}` writes a string: in double quotes, with quotes, backslashes
/// and unprintable chars escaped
pub uninterp spec fn debug_quoted(s: Seq<char>) -> Seq<char>;

/// `<str as Debug>::fmt`, through `format!("{:?}")`; the claim is only that
/// the text is a function of the string, named `debug_quoted`
#[verifier::external_body]
fn quoted(s: &str) -> (q: String)
    ensures
        q@ == debug_quoted(s@),
{
    format!("{s:?}")
}

/// the `stderr` spawn option: absent, stderr stays apart; "stdout"
/// interleaves it into the stdout stream; anything else is refused
pub fn merge_stderr_option(option: Option<&str>) -> (merge: Result<bool, String>)
    ensures
        match option {
            None => merge == Ok::<bool, String>(false),
            Some(word) => if word@ == "stdout"@ {
                merge == Ok::<bool, String>(true)
            } else {
                merge matches Err(e) && e@ == "bad stderr option "@ + debug_quoted(word@)
            },
        },
{
    match option {
        None => Ok(false),
        Some(word) => {
            if word.to_owned() == "stdout".to_owned() {
                Ok(true)
            } else {
                let mut e = "bad stderr option ".to_owned();
                e.append(quoted(word).as_str());
                Err(e)
            }
        },
    }
}

/// argv is executed as given, so there must be a program to execute
pub fn check_argv(argv: &[String]) -> (r: Result<(), String>)
    ensures
        match r {
            Ok(()) => argv@.len() > 0,
            Err(e) => argv@.len() == 0 && e@ == "expected a command to spawn"@,
        },
{
    if argv.len() == 0 {
        Err("expected a command to spawn".to_owned())
    } else {
        Ok(())
    }
}

/// a read of everything from an open buffer returns exactly what was
/// delivered to it, in order, and leaves it empty
pub proof fn lemma_a_read_returns_what_was_delivered(queued: Seq<u8>, chunk: Seq<u8>)
    ensures
        take_result(queued + chunk, false, None) == Some(queued + chunk),
        (queued + chunk).skip(take_len(queued + chunk, None)) == Seq::<u8>::empty(),
{
    let all = queued + chunk;
    assert(all.take(all.len() as int) =~= all);
    assert(all.skip(all.len() as int) =~= Seq::<u8>::empty());
}

/// bounded reads lose and reorder nothing: what one read takes, followed
/// by what it leaves, is what the buffer held
pub proof fn lemma_bounded_reads_lose_nothing(data: Seq<u8>, max: usize)
    ensures
        data.take(take_len(data, Some(max))) + data.skip(take_len(data, Some(max))) == data,
{
    assert(data.take(take_len(data, Some(max))) + data.skip(take_len(data, Some(max))) =~= data);
}

/// python's convention for how a process ended: a process killed by
/// signal n reports -n, else its exit code, else -1
pub fn exit_code(signal: Option<i32>, code: Option<i32>) -> (c: i32)
    requires
        signal matches Some(s) ==> s > i32::MIN,
    ensures
        c == match signal {
            Some(s) => -s,
            None => match code {
                Some(v) => v as int,
                None => -1,
            },
        },
{
    match signal {
        Some(sig) => -sig,
        None => match code {
            Some(v) => v,
            None => -1,
        },
    }
}

} // verus!
