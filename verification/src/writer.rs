//! A sink that writes triples as N-Triples lines, through a buffer as `BufWriter` keeps one.

use vstd::prelude::*;
use vstd::slice::slice_subrange;
use vstd::utf8::{encode_utf8, is_ascii_chars, is_ascii_chars_encode_utf8};
use std::io::{Stdout, Write};
use crate::rdf::{Triple, TripleView, triple_text};

verus! {

#[verifier::external_type_specification]
#[verifier::external_body]
pub struct ExIoError(std::io::Error);

#[verifier::external_type_specification]
#[verifier::external_body]
pub struct ExStdout(Stdout);

/// How many bytes the buffer of a `FileWriter` holds at most (the default capacity of
/// `BufWriter`).
pub const BUFFER_CAPACITY: usize = 8192;

/// One call this library made on a writer, with what it handed over and the answer.
pub enum WriterCall {
    /// `Write::write` offered these bytes and got this answer.
    Write(Seq<u8>, Result<usize, std::io::Error>),
    /// `Write::write_all` was given these bytes and got this answer.
    WriteAll(Seq<u8>, Result<(), std::io::Error>),
    /// `Write::flush` got this answer.
    Flush(Result<(), std::io::Error>),
}

/// The calls of `after` made since `before`.
pub open spec fn calls_since(before: Seq<WriterCall>, after: Seq<WriterCall>) -> Seq<WriterCall> {
    after.skip(before.len() as int)
}

/// Whether `after` is `before` followed by more calls.
pub open spec fn extends(before: Seq<WriterCall>, after: Seq<WriterCall>) -> bool {
    before.len() <= after.len() && after.take(before.len() as int) == before
}

/// Whether the writer took every byte it was offered in `calls`: each `write` wrote all
/// it was offered, and each `write_all` succeeded.
pub open spec fn took_all(calls: Seq<WriterCall>) -> bool {
    forall|i: int|
        0 <= i < calls.len() ==> match #[trigger] calls[i] {
            WriterCall::Write(offered, answer) => answer matches Ok(n) && n == offered.len(),
            WriterCall::WriteAll(_, answer) => answer is Ok,
            WriterCall::Flush(_) => true,
        }
}

/// Whether the last of `calls` is a failure that `e` reports: a `write` or `write_all`
/// that answered the error `e`, or a `write` that wrote no byte.
pub open spec fn failed_last(calls: Seq<WriterCall>, e: std::io::Error) -> bool {
    calls.len() > 0 && match calls.last() {
        WriterCall::Write(_, answer) => match answer {
            Ok(n) => n == 0,
            Err(e2) => e2 == e,
        },
        WriterCall::WriteAll(_, answer) => answer matches Err(e2) && e2 == e,
        WriterCall::Flush(_) => false,
    }
}

/// How many bytes the `write` calls of `calls` report as written.
pub open spec fn write_counts(calls: Seq<WriterCall>) -> int
    decreases calls.len(),
{
    if calls.len() == 0 {
        0
    } else {
        write_counts(calls.drop_last()) + match calls.last() {
            WriterCall::Write(_, answer) => match answer {
                Ok(n) => n as int,
                Err(_) => 0,
            },
            _ => 0,
        }
    }
}

/// A writer together with the bytes it has taken from this library and the calls made
/// on it, in order.
struct Stream<W> {
    inner: W,
    accepted: Ghost<Seq<u8>>,
    calls: Ghost<Seq<WriterCall>>,
}

/// Where a `FileWriter` puts its lines: an in-memory buffer that it appends to itself,
/// or any other writer, reached through `Write`.
enum Sink<W> {
    Memory(Vec<u8>),
    Stream(Stream<W>),
}

/// Writes each triple it is given as one N-Triples line.
pub struct FileWriter<W> {
    sink: Sink<W>,
    buffer: Vec<u8>,
    written: Ghost<Seq<char>>,
}

/// Calls `std::io::stdout`, the handle to the standard output of the process.
#[verifier::external_body]
fn stdout_handle() -> Stdout {
    std::io::stdout()
}

/// Calls `Write::write` on the writer of `s`. As `Write` documents it, `Ok(n)` means that
/// the first `n` bytes of `buf`, and no more, were written, with `n <= buf.len()`, and an
/// error means that no byte was written. How many bytes the writer takes depends on it.
#[verifier::external_body]
fn stream_write<W: Write>(s: &mut Stream<W>, buf: &[u8]) -> (r: Result<usize, std::io::Error>)
    ensures
        r matches Ok(n) ==> n <= buf@.len() && final(s).accepted@ == old(s).accepted@ + buf@.take(
            n as int,
        ),
        r is Err ==> final(s).accepted@ == old(s).accepted@,
        final(s).calls@ == old(s).calls@.push(WriterCall::Write(buf@, r)),
{
    s.inner.write(buf)
}

/// Calls `Write::write_all` on the writer of `s`: on success every byte of `buf` was
/// written; on failure some first part of `buf` was, how much is not known.
#[verifier::external_body]
fn stream_write_all<W: Write>(s: &mut Stream<W>, buf: &[u8]) -> (r: Result<(), std::io::Error>)
    ensures
        r is Ok ==> final(s).accepted@ == old(s).accepted@ + buf@,
        r is Err ==> exists|k: int|
            0 <= k <= buf@.len() && final(s).accepted@ == old(s).accepted@ + buf@.take(k),
        final(s).calls@ == old(s).calls@.push(WriterCall::WriteAll(buf@, r)),
{
    s.inner.write_all(buf)
}

/// Calls `Write::flush` on the writer of `s`, which hands it no bytes; whether it succeeds
/// depends on the writer.
#[verifier::external_body]
fn stream_flush<W: Write>(s: &mut Stream<W>) -> (r: Result<(), std::io::Error>)
    ensures
        final(s).accepted@ == old(s).accepted@,
        final(s).calls@ == old(s).calls@.push(WriterCall::Flush(r)),
{
    s.inner.flush()
}

/// Calls `std::io::Error::new` for the error `BufWriter` reports when a writer takes no
/// byte of its buffer.
#[verifier::external_body]
fn write_zero_error() -> std::io::Error {
    std::io::Error::new(std::io::ErrorKind::WriteZero, "failed to write the buffered data")
}

/// Whether `calls` are the `write` calls of a flush of `buf`: each offers what the answers
/// before it left of `buf`, and each but the last wrote at least one byte.
pub open spec fn flush_calls(buf: Seq<u8>, calls: Seq<WriterCall>) -> bool {
    &&& forall|i: int|
        0 <= i < calls.len() ==> (#[trigger] calls[i] matches WriterCall::Write(offered, _)
            && offered == buf.skip(write_counts(calls.take(i))))
    &&& forall|i: int|
        0 <= i < calls.len() - 1 ==> (#[trigger] calls[i] matches WriterCall::Write(_, answer)
            && answer matches Ok(n) && n > 0)
}

proof fn lemma_calls_since_push(before: Seq<WriterCall>, after: Seq<WriterCall>, c: WriterCall)
    requires
        extends(before, after),
    ensures
        extends(before, after.push(c)),
        calls_since(before, after.push(c)) == calls_since(before, after).push(c),
{
    assert(after.push(c).take(before.len() as int) =~= after.take(before.len() as int));
    assert(calls_since(before, after.push(c)) =~= calls_since(before, after).push(c));
}

proof fn lemma_calls_since_trans(a: Seq<WriterCall>, b: Seq<WriterCall>, c: Seq<WriterCall>)
    requires
        extends(a, b),
        extends(b, c),
    ensures
        extends(a, c),
        calls_since(a, c) == calls_since(a, b) + calls_since(b, c),
{
    assert(c.take(a.len() as int) =~= b.take(a.len() as int)) by {
        assert forall|i: int| 0 <= i < a.len() implies c.take(a.len() as int)[i] == b.take(
            a.len() as int,
        )[i] by {
            assert(c[i] == c.take(b.len() as int)[i]);
        }
    }
    assert(calls_since(a, c) =~= calls_since(a, b) + calls_since(b, c)) by {
        assert forall|i: int| 0 <= i < calls_since(a, c).len() implies calls_since(a, c)[i] == (
        calls_since(a, b) + calls_since(b, c))[i] by {
            if i < b.len() - a.len() {
                assert(c[a.len() + i] == c.take(b.len() as int)[a.len() + i]);
            }
        }
    }
}

proof fn lemma_took_all_split(x: Seq<WriterCall>, y: Seq<WriterCall>)
    ensures
        took_all(x + y) ==> took_all(x) && took_all(y),
        took_all(x) && took_all(y) ==> took_all(x + y),
{
    if took_all(x + y) {
        assert forall|i: int| 0 <= i < x.len() implies match #[trigger] x[i] {
            WriterCall::Write(offered, answer) => answer matches Ok(n) && n == offered.len(),
            WriterCall::WriteAll(_, answer) => answer is Ok,
            WriterCall::Flush(_) => true,
        } by {
            assert((x + y)[i] == x[i]);
        }
        assert forall|i: int| 0 <= i < y.len() implies match #[trigger] y[i] {
            WriterCall::Write(offered, answer) => answer matches Ok(n) && n == offered.len(),
            WriterCall::WriteAll(_, answer) => answer is Ok,
            WriterCall::Flush(_) => true,
        } by {
            assert((x + y)[x.len() + i] == y[i]);
        }
    }
    if took_all(x) && took_all(y) {
        assert forall|i: int| 0 <= i < (x + y).len() implies match #[trigger] (x + y)[i] {
            WriterCall::Write(offered, answer) => answer matches Ok(n) && n == offered.len(),
            WriterCall::WriteAll(_, answer) => answer is Ok,
            WriterCall::Flush(_) => true,
        } by {
            if i < x.len() {
                assert((x + y)[i] == x[i]);
            } else {
                assert((x + y)[i] == y[i - x.len()]);
            }
        }
    }
}

proof fn lemma_failed_last_suffix(x: Seq<WriterCall>, y: Seq<WriterCall>, e: std::io::Error)
    requires
        failed_last(y, e),
    ensures
        failed_last(x + y, e),
{
    assert((x + y).last() == y.last());
}

/// Hands the bytes of `buffer` to the writer of `s`, one `Write::write` after another,
/// until all are taken or the writer fails or takes none; what it took leaves the buffer.
/// It fails only on an error or a write of no byte, with that error.
fn flush_buf<W: Write>(s: &mut Stream<W>, buffer: &mut Vec<u8>) -> (r: Result<(), std::io::Error>)
    ensures
        extends(old(s).calls@, final(s).calls@),
        flush_calls(old(buffer)@, calls_since(old(s).calls@, final(s).calls@)),
        0 <= write_counts(calls_since(old(s).calls@, final(s).calls@)) <= old(buffer)@.len(),
        final(buffer)@ == old(buffer)@.skip(write_counts(calls_since(old(s).calls@, final(s).calls@))),
        final(s).accepted@ == old(s).accepted@ + old(buffer)@.take(
            write_counts(calls_since(old(s).calls@, final(s).calls@)),
        ),
        r is Ok <==> final(buffer)@.len() == 0,
        r matches Err(e) ==> failed_last(calls_since(old(s).calls@, final(s).calls@), e),
        took_all(calls_since(old(s).calls@, final(s).calls@)) ==> r is Ok,
{
    let ghost buf0 = buffer@;
    let ghost calls0 = s.calls@;
    let ghost acc0 = s.accepted@;
    let len: usize = buffer.len();
    let mut done: usize = 0;
    let mut failure: Option<std::io::Error> = None;
    proof {
        assert(s.calls@.take(calls0.len() as int) =~= calls0);
        assert(calls_since(calls0, s.calls@) =~= Seq::<WriterCall>::empty());
        assert(buf0.take(0) =~= Seq::<u8>::empty());
        assert(acc0 + buf0.take(0) =~= acc0);
    }
    while done < len
        invariant_except_break
            failure is None,
            calls_since(calls0, s.calls@).len() > 0 ==> (calls_since(calls0, s.calls@).last() matches WriterCall::Write(
                _,
                answer,
            ) && answer matches Ok(n) && n > 0),
        invariant
            done <= len == buffer@.len(),
            buffer@ == buf0,
            buf0 == old(buffer)@,
            calls0 == old(s).calls@,
            acc0 == old(s).accepted@,
            extends(calls0, s.calls@),
            flush_calls(buf0, calls_since(calls0, s.calls@)),
            write_counts(calls_since(calls0, s.calls@)) == done,
            s.accepted@ == acc0 + buf0.take(done as int),
        ensures
            failure is None ==> done == len,
            failure matches Some(e) ==> done < len && failed_last(calls_since(calls0, s.calls@), e),
        decreases len - done,
    {
        let rest = slice_subrange(buffer.as_slice(), done, len);
        let ghost before = s.calls@;
        let answer = stream_write(s, rest);
        proof {
            lemma_calls_since_push(calls0, before, WriterCall::Write(rest@, answer));
            let old_new = calls_since(calls0, before);
            let new = calls_since(calls0, s.calls@);
            assert(new.drop_last() =~= old_new);
            assert forall|i: int| 0 <= i < old_new.len() implies #[trigger] new.take(i) == old_new.take(i) by {
                assert(new.take(i) =~= old_new.take(i));
            }
            assert(new.take(old_new.len() as int) =~= old_new);
            assert(rest@ == buf0.skip(done as int));
            assert forall|i: int| 0 <= i < new.len() implies (#[trigger] new[i] matches WriterCall::Write(offered, _)
                && offered == buf0.skip(write_counts(new.take(i)))) by {
                if i < old_new.len() {
                    assert(new[i] == old_new[i]);
                }
            }
            assert forall|i: int| 0 <= i < new.len() - 1 implies (#[trigger] new[i] matches WriterCall::Write(_, answer)
                && answer matches Ok(n) && n > 0) by {
                assert(new[i] == old_new[i]);
                if i == old_new.len() - 1 {
                    assert(old_new.last() == old_new[i]);
                }
            }
        }
        match answer {
            Ok(n) => {
                if n == 0 {
                    failure = Some(write_zero_error());
                    break;
                }
                proof {
                    assert(buf0.take(done + n) =~= buf0.take(done as int) + rest@.take(n as int));
                    assert(acc0 + buf0.take(done + n) =~= acc0 + buf0.take(done as int) + rest@.take(
                        n as int,
                    ));
                }
                done = done + n;
            },
            Err(e) => {
                failure = Some(e);
                break;
            },
        }
    }
    proof {
        assert(buffer@.skip(done as int) =~= buf0.skip(done as int));
    }
    let remaining = buffer.split_off(done);
    *buffer = remaining;
    proof {
        let new = calls_since(calls0, s.calls@);
        if took_all(new) && failure is Some {
            let i = new.len() - 1;
            assert(new[i] == new.last());
            assert(new.take(i) =~= new.drop_last());
        }
    }
    match failure {
        Some(e) => Err(e),
        None => Ok(()),
    }
}

/// Writes `buf` as `BufWriter::write_all` does: into the buffer when it fits in the free
/// space; otherwise after handing the buffer to the writer, and straight to the writer
/// when `buf` is at least as long as the buffer can be. It fails only when the writer
/// does, with the writer's error.
#[verifier::rlimit(80)]
fn buffered_write<W: Write>(s: &mut Stream<W>, buffer: &mut Vec<u8>, buf: &[u8]) -> (r: Result<
    (),
    std::io::Error,
>)
    requires
        old(buffer)@.len() <= BUFFER_CAPACITY,
    ensures
        final(buffer)@.len() <= BUFFER_CAPACITY,
        extends(old(s).calls@, final(s).calls@),
        r is Ok ==> final(s).accepted@ + final(buffer)@ == old(s).accepted@ + old(buffer)@ + buf@,
        r is Err ==> exists|k: int|
            0 <= k <= buf@.len()
                && final(s).accepted@ + final(buffer)@ == old(s).accepted@ + old(buffer)@ + buf@.take(k),
        r matches Err(e) ==> failed_last(calls_since(old(s).calls@, final(s).calls@), e),
        took_all(calls_since(old(s).calls@, final(s).calls@)) ==> r is Ok,
        buf@.len() < BUFFER_CAPACITY - old(buffer)@.len() ==> r is Ok
            && final(s).accepted@ == old(s).accepted@ && final(buffer)@ == old(buffer)@ + buf@
            && final(s).calls@ == old(s).calls@,
{
    let ghost calls0 = s.calls@;
    proof {
        assert(calls0.take(calls0.len() as int) =~= calls0);
    }
    if buf.len() < BUFFER_CAPACITY - buffer.len() {
        append_bytes(buffer, buf);
        proof {
            assert(calls_since(calls0, s.calls@) =~= Seq::<WriterCall>::empty());
        }
        return Ok(());
    }
    let ghost buffer0 = buffer@;
    let ghost acc0 = s.accepted@;
    if buf.len() > BUFFER_CAPACITY - buffer.len() {
        match flush_buf(s, buffer) {
            Ok(()) => {
                proof {
                    let c = write_counts(calls_since(calls0, s.calls@));
                    assert(c == buffer0.len());
                    assert(buffer0.take(c) =~= buffer0);
                }
            },
            Err(e) => {
                proof {
                    let c = write_counts(calls_since(calls0, s.calls@));
                    assert(buf@.take(0) =~= Seq::<u8>::empty());
                    assert(buffer0.take(c) + buffer0.skip(c) =~= buffer0);
                    assert(s.accepted@ + buffer@ + buf@.take(0) =~= acc0 + buffer0);
                }
                return Err(e);
            },
        }
    } else {
        proof {
            assert(calls_since(calls0, s.calls@) =~= Seq::<WriterCall>::empty());
        }
    }
    let ghost calls1 = s.calls@;
    proof {
        lemma_calls_since_self(calls0);
    }
    if buf.len() >= BUFFER_CAPACITY {
        proof {
            assert(buffer@ =~= Seq::<u8>::empty());
            assert(s.accepted@ =~= acc0 + buffer0);
        }
        let r = write_through(s, buf);
        proof {
            assert(s.accepted@ + buffer@ =~= s.accepted@);
            lemma_calls_since_trans(calls0, calls1, s.calls@);
            lemma_took_all_split(calls_since(calls0, calls1), calls_since(calls1, s.calls@));
            if r is Err {
                let e = r->Err_0;
                lemma_failed_last_suffix(calls_since(calls0, calls1), calls_since(calls1, s.calls@), e);
            }
        }
        r
    } else {
        append_bytes(buffer, buf);
        proof {
            let c = write_counts(calls_since(calls0, s.calls@));
            assert(buffer0.take(c) + buffer0.skip(c) =~= buffer0);
            assert(s.accepted@ + buffer@ =~= acc0 + buffer0 + buf@);
        }
        Ok(())
    }
}

proof fn lemma_calls_since_self(c: Seq<WriterCall>)
    ensures
        extends(c, c),
        calls_since(c, c) == Seq::<WriterCall>::empty(),
{
    assert(c.take(c.len() as int) =~= c);
    assert(calls_since(c, c) =~= Seq::<WriterCall>::empty());
}

/// Hands all of `buf` to the writer of `s` with one `Write::write_all`.
fn write_through<W: Write>(s: &mut Stream<W>, buf: &[u8]) -> (r: Result<(), std::io::Error>)
    ensures
        extends(old(s).calls@, final(s).calls@),
        calls_since(old(s).calls@, final(s).calls@) == seq![WriterCall::WriteAll(buf@, r)],
        r is Ok ==> final(s).accepted@ == old(s).accepted@ + buf@,
        r is Err ==> exists|k: int|
            0 <= k <= buf@.len() && final(s).accepted@ == old(s).accepted@ + buf@.take(k),
        r matches Err(e) ==> failed_last(calls_since(old(s).calls@, final(s).calls@), e),
        took_all(calls_since(old(s).calls@, final(s).calls@)) ==> r is Ok,
{
    let ghost c0 = s.calls@;
    let r = stream_write_all(s, buf);
    proof {
        lemma_calls_since_self(c0);
        lemma_calls_since_push(c0, c0, WriterCall::WriteAll(buf@, r));
        let last = calls_since(c0, s.calls@);
        assert(last =~= seq![WriterCall::WriteAll(buf@, r)]);
        assert(last[0] == WriterCall::WriteAll(buf@, r));
    }
    r
}

/// Appends the bytes of `buf` to `v`.
fn append_bytes(v: &mut Vec<u8>, buf: &[u8])
    ensures
        final(v)@ == old(v)@ + buf@,
{
    let mut i: usize = 0;
    while i < buf.len()
        invariant
            i <= buf@.len(),
            v@ == old(v)@ + buf@.take(i as int),
        decreases buf@.len() - i,
    {
        v.push(buf[i]);
        proof {
            assert(buf@.take(i + 1) =~= buf@.take(i as int).push(buf@[i as int]));
        }
        i = i + 1;
    }
    proof {
        assert(buf@.take(buf@.len() as int) =~= buf@);
    }
}

/// The text of one N-Triples line for `t`: the triple, then ` .` and a line break.
pub open spec fn line_text(t: TripleView) -> Seq<char> {
    triple_text(t) + seq![' ', '.', '\n']
}

/// The UTF-8 encoding of two texts one after the other is the encoding of the first
/// followed by that of the second.
pub proof fn lemma_encode_utf8_concat(a: Seq<char>, b: Seq<char>)
    ensures
        encode_utf8(a + b) == encode_utf8(a) + encode_utf8(b),
    decreases a.len(),
{
    if a.len() == 0 {
        assert(a + b =~= b);
        assert(encode_utf8(a) + encode_utf8(b) =~= encode_utf8(b));
    } else {
        assert((a + b)[0] == a[0]);
        assert((a + b).drop_first() =~= a.drop_first() + b);
        lemma_encode_utf8_concat(a.drop_first(), b);
    }
}

proof fn lemma_line_bytes(t: TripleView)
    ensures
        encode_utf8(line_text(t)) == encode_utf8(triple_text(t)) + seq![32u8, 46u8, 10u8],
{
    let end = seq![' ', '.', '\n'];
    lemma_encode_utf8_concat(triple_text(t), end);
    assert(is_ascii_chars(end));
    is_ascii_chars_encode_utf8(end);
    assert(encode_utf8(end)[0] == end[0] as u8);
    assert(encode_utf8(end)[1] == end[1] as u8);
    assert(encode_utf8(end)[2] == end[2] as u8);
    assert(encode_utf8(end) =~= seq![32u8, 46u8, 10u8]);
}

/// The line end ` .` and a line break, as bytes.
fn line_end() -> (r: Vec<u8>)
    ensures
        r@ == seq![32u8, 46u8, 10u8],
{
    let mut r: Vec<u8> = Vec::new();
    r.push(32);
    r.push(46);
    r.push(10);
    assert(r@ =~= seq![32u8, 46u8, 10u8]);
    r
}

impl<W> FileWriter<W> {
    /// The text of the lines whose writing succeeded, in order.
    pub closed spec fn written(&self) -> Seq<char> {
        self.written@
    }

    /// Whether the lines go into an in-memory buffer.
    pub closed spec fn in_memory(&self) -> bool {
        self.sink is Memory
    }

    /// The bytes the destination has taken: the in-memory buffer, or the bytes the writer
    /// has taken.
    pub closed spec fn delivered(&self) -> Seq<u8> {
        match self.sink {
            Sink::Memory(v) => v@,
            Sink::Stream(s) => s.accepted@,
        }
    }

    /// The calls made on the writer, in order; none for an in-memory destination.
    pub closed spec fn calls(&self) -> Seq<WriterCall> {
        match self.sink {
            Sink::Memory(_) => Seq::empty(),
            Sink::Stream(s) => s.calls@,
        }
    }

    /// The bytes written but not yet handed to the writer.
    pub closed spec fn pending(&self) -> Seq<u8> {
        self.buffer@
    }

    /// The writer the lines go to, when they do not go into memory.
    pub closed spec fn writer(&self) -> Option<W> {
        match self.sink {
            Sink::Memory(_) => None,
            Sink::Stream(s) => Some(s.inner),
        }
    }

    /// The buffer stays within its capacity; an in-memory destination holds exactly the
    /// UTF-8 encoding of the text written, and nothing waits in the buffer.
    pub closed spec fn wf(&self) -> bool {
        &&& self.buffer@.len() <= BUFFER_CAPACITY
        &&& self.sink is Memory ==> self.buffer@.len() == 0 && self.delivered() == encode_utf8(
            self.written@,
        )
    }
}

impl FileWriter<Stdout> {
    /// A writer to the standard output, with nothing written yet.
    pub fn to_stdout() -> (r: Self)
        ensures
            r.wf(),
            !r.in_memory(),
            r.written() == Seq::<char>::empty(),
            r.delivered() == Seq::<u8>::empty(),
            r.pending() == Seq::<u8>::empty(),
    {
        FileWriter {
            sink: Sink::Stream(Stream { inner: stdout_handle(), accepted: Ghost(Seq::empty()), calls: Ghost(Seq::empty()) }),
            buffer: Vec::new(),
            written: Ghost(Seq::empty()),
        }
    }
}

impl FileWriter<Vec<u8>> {
    /// A writer into an in-memory buffer, empty at first.
    pub fn to_vec() -> (r: Self)
        ensures
            r.wf(),
            r.in_memory(),
            r.written() == Seq::<char>::empty(),
            r.delivered() == Seq::<u8>::empty(),
    {
        FileWriter { sink: Sink::Memory(Vec::new()), buffer: Vec::new(), written: Ghost(Seq::empty()) }
    }

    /// The bytes written: for the in-memory writer, the UTF-8 encoding of every line
    /// written; for a writer made by `new` over a `Vec<u8>`, that vector with the bytes
    /// still buffered appended (`Write` for `Vec<u8>` appends every byte and never fails,
    /// so handing the buffer over cannot fail).
    pub fn into_vec(self) -> (r: Vec<u8>)
        requires
            self.wf(),
        ensures
            self.in_memory() ==> r@ == encode_utf8(self.written()),
            !self.in_memory() ==> (self.writer() matches Some(v) && r@ == v@ + self.pending()),
    {
        let FileWriter { sink, buffer, written: _ } = self;
        match sink {
            Sink::Memory(v) => v,
            Sink::Stream(s) => {
                let mut v = s.inner;
                append_bytes(&mut v, buffer.as_slice());
                v
            },
        }
    }
}

impl<W: Write> FileWriter<W> {
    /// A writer to `writer`, with nothing written yet.
    pub fn new(writer: W) -> (r: Self)
        ensures
            r.wf(),
            !r.in_memory(),
            r.writer() == Some(writer),
            r.written() == Seq::<char>::empty(),
            r.delivered() == Seq::<u8>::empty(),
            r.pending() == Seq::<u8>::empty(),
    {
        FileWriter {
            sink: Sink::Stream(Stream { inner: writer, accepted: Ghost(Seq::empty()), calls: Ghost(Seq::empty()) }),
            buffer: Vec::new(),
            written: Ghost(Seq::empty()),
        }
    }

    /// Writes `triple` in N-Triples, then ` .` and a line break, through the buffer as
    /// `BufWriter::write_all` does, and then tries to hand the buffer to the writer and
    /// flush it, ignoring a failure there. It fails only when the line does not fit in the
    /// buffer and the writer fails to take bytes; it then returns the writer's error (or the
    /// error for a write of no byte) and makes no further call. When the writer takes every
    /// byte it is offered, the line reaches it and nothing stays buffered. A writer that
    /// reports an interrupted write ends the attempt like any other failure; the bytes stay
    /// in the buffer.
    pub fn add_triple(&mut self, triple: &Triple) -> (r: Result<(), std::io::Error>)
        requires
            old(self).wf(),
        ensures
            final(self).wf(),
            final(self).in_memory() == old(self).in_memory(),
            old(self).in_memory() ==> r is Ok && final(self).pending() == Seq::<u8>::empty(),
            old(self).pending().len() + encode_utf8(line_text(triple@)).len() < BUFFER_CAPACITY
                ==> r is Ok,
            r is Ok ==> final(self).written() == old(self).written() + line_text(triple@),
            r is Err ==> final(self).written() == old(self).written(),
            r is Ok ==> final(self).delivered() + final(self).pending() == old(self).delivered()
                + old(self).pending() + encode_utf8(line_text(triple@)),
            r is Err ==> exists|k: int|
                0 <= k <= encode_utf8(line_text(triple@)).len()
                    && final(self).delivered() + final(self).pending()
                    == old(self).delivered() + old(self).pending()
                    + encode_utf8(line_text(triple@)).take(k),
            extends(old(self).calls(), final(self).calls()),
            r matches Err(e) ==> failed_last(calls_since(old(self).calls(), final(self).calls()), e),
            took_all(calls_since(old(self).calls(), final(self).calls())) ==> r is Ok
                && final(self).pending() == Seq::<u8>::empty(),
    {
        let text = triple.to_ntriples();
        let end = line_end();
        let ghost line = encode_utf8(line_text(triple@));
        let ghost head = encode_utf8(text@);
        proof {
            lemma_line_bytes(triple@);
            lemma_encode_utf8_concat(self.written@, line_text(triple@));
        }
        match &mut self.sink {
            Sink::Memory(v) => {
                let ghost v0 = v@;
                append_bytes(v, text.as_str().as_bytes());
                append_bytes(v, end.as_slice());
                proof {
                    assert(v@ =~= v0 + line);
                    assert(Seq::<WriterCall>::empty().take(0) =~= Seq::<WriterCall>::empty());
                    assert(calls_since(Seq::<WriterCall>::empty(), Seq::<WriterCall>::empty())
                        =~= Seq::<WriterCall>::empty());
                    self.written@ = self.written@ + line_text(triple@);
                }
                Ok(())
            },
            Sink::Stream(s) => {
                let ghost before = s.accepted@ + self.buffer@;
                let ghost c0 = s.calls@;
                proof {
                    assert(c0.take(c0.len() as int) =~= c0);
                    assert(calls_since(c0, c0) =~= Seq::<WriterCall>::empty());
                }
                match buffered_write(s, &mut self.buffer, text.as_str().as_bytes()) {
                    Ok(()) => {},
                    Err(e) => {
                        proof {
                            let k = choose|k: int|
                                0 <= k <= head.len() && s.accepted@ + self.buffer@ == before
                                    + head.take(k);
                            assert(head.take(k) =~= line.take(k));
                        }
                        return Err(e);
                    },
                }
                let ghost c1 = s.calls@;
                match buffered_write(s, &mut self.buffer, end.as_slice()) {
                    Ok(()) => {},
                    Err(e) => {
                        proof {
                            let k = choose|k: int|
                                0 <= k <= 3 && s.accepted@ + self.buffer@ == before + head
                                    + end@.take(k);
                            assert(head + end@.take(k) =~= line.take(head.len() + k));
                            assert(before + head + end@.take(k) =~= before + (head + end@.take(
                                k,
                            )));
                            lemma_calls_since_trans(c0, c1, s.calls@);
                            lemma_failed_last_suffix(calls_since(c0, c1), calls_since(c1, s.calls@), e);
                            lemma_took_all_split(calls_since(c0, c1), calls_since(c1, s.calls@));
                        }
                        return Err(e);
                    },
                }
                let ghost c2 = s.calls@;
                let ghost before_flush = s.accepted@ + self.buffer@;
                proof {
                    assert(before + head + end@ =~= before + line);
                    lemma_calls_since_trans(c0, c1, c2);
                    lemma_took_all_split(calls_since(c0, c1), calls_since(c1, c2));
                }
                let flushed = flush_buf(s, &mut self.buffer);
                let ghost c3 = s.calls@;
                proof {
                    let b = old(self).buffer@;
                    let n = write_counts(calls_since(c2, c3));
                    lemma_calls_since_trans(c0, c2, c3);
                    lemma_took_all_split(calls_since(c0, c2), calls_since(c2, c3));
                }
                match flushed {
                    Ok(()) => {
                        let answer = stream_flush(s);
                        proof {
                            assert(c3.take(c3.len() as int) =~= c3);
                            assert(calls_since(c3, c3) =~= Seq::<WriterCall>::empty());
                            lemma_calls_since_push(c3, c3, WriterCall::Flush(answer));
                            lemma_calls_since_trans(c0, c3, s.calls@);
                            let last = calls_since(c3, s.calls@);
                            assert(last =~= seq![WriterCall::Flush(answer)]);
                            assert(took_all(last));
                            lemma_took_all_split(calls_since(c0, c3), last);
                        }
                    },
                    Err(_) => {},
                }
                proof {
                    self.written@ = self.written@ + line_text(triple@);
                }
                Ok(())
            },
        }
    }
}

} // verus!
