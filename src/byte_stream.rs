use vstd::prelude::*;

use std::convert::Infallible;
use vstd::std_specs::iter::IteratorSpec;

verus! {

/// Why a byte source could not hand out the bytes asked of it.
#[derive(Debug)]
pub enum StreamError<E> {
    /// The source ended before the requested bytes.
    UnexpectedEof,
    /// The transport failed.
    Io(E),
}

/// A fallible sequence of bytes, finite or not.
///
/// `taken` records every byte handed out so far. `held` is what the source is
/// known to hold next: a source that can look ahead promises those bytes, one
/// that cannot holds nothing. Where `holds_all` is true, `held` is everything
/// the source will ever hand out, and it ends right after. `last_error` is the
/// failure the source reported last.
pub trait ByteStream {
    type IoError;

    /// The bytes handed out so far, oldest first.
    spec fn taken(&self) -> Seq<u8>;

    /// The bytes the source is known to hand out next.
    spec fn held(&self) -> Seq<u8>;

    /// Whether the source ends right after `held`.
    spec fn holds_all(&self) -> bool;

    /// The failure the source reported last, if any.
    spec fn last_error(&self) -> Option<StreamError<Self::IoError>>;

    /// The next `N` bytes.
    fn read_n<const N: usize>(&mut self) -> (r: Result<[u8; N], StreamError<Self::IoError>>)
        ensures
            N == 0 ==> r is Ok,
            r is Ok ==> final(self).taken() == old(self).taken() + r->Ok_0@,
            r is Ok ==> final(self).last_error() == old(self).last_error(),
            r matches Err(e) ==> final(self).last_error() == Some(e),
            r is Err ==> old(self).taken().is_prefix_of(final(self).taken()) && final(self).taken().len() < old(self).taken().len() + N,
            0 < N <= old(self).held().len() ==> {
                &&& r is Ok
                &&& r->Ok_0@ == old(self).held().take(N as int)
                &&& final(self).held() == old(self).held().skip(N as int)
            },
            old(self).holds_all() && r is Ok ==> final(self).holds_all(),
            old(self).holds_all() && old(self).held().len() < N ==> r matches Err(
                StreamError::UnexpectedEof,
            ),
    ;

    /// The next byte.
    fn read_one(&mut self) -> (r: Result<u8, StreamError<Self::IoError>>)
        ensures
            r is Ok ==> final(self).taken() == old(self).taken().push(r->Ok_0),
            r is Ok ==> final(self).last_error() == old(self).last_error(),
            r matches Err(e) ==> final(self).last_error() == Some(e),
            r is Err ==> final(self).taken() == old(self).taken(),
            0 < old(self).held().len() ==> {
                &&& r is Ok
                &&& r->Ok_0 == old(self).held()[0]
                &&& final(self).held() == old(self).held().drop_first()
            },
            old(self).holds_all() && r is Ok ==> final(self).holds_all(),
            old(self).holds_all() && old(self).held().len() == 0 ==> r matches Err(
                StreamError::UnexpectedEof,
            ),
    ;
}

/// A byte source over an in-memory slice; it never fails with an I/O error.
pub struct SliceByteStream<'a> {
    slice: &'a [u8],
    taken: Ghost<Seq<u8>>,
    failure: Ghost<Option<StreamError<Infallible>>>,
}

impl<'a> SliceByteStream<'a> {
    pub fn new(slice: &'a [u8]) -> (s: Self)
        ensures
            s.held() == slice@,
            s.holds_all(),
            s.last_error() is None,
            s.taken() == Seq::<u8>::empty(),
    {
        SliceByteStream { slice, taken: Ghost(Seq::empty()), failure: Ghost(None) }
    }

    /// The bytes not read yet.
    pub fn inner(&self) -> (r: &'a [u8])
        ensures
            r@ == self.held(),
    {
        self.slice
    }
}

impl<'a> From<&'a [u8]> for SliceByteStream<'a> {
    fn from(slice: &'a [u8]) -> (s: Self)
        ensures
            s.held() == slice@,
            s.holds_all(),
            s.taken() == Seq::<u8>::empty(),
            s.last_error() is None,
    {
        SliceByteStream { slice, taken: Ghost(Seq::empty()), failure: Ghost(None) }
    }
}

impl<'a> vstd::std_specs::convert::FromSpecImpl<&'a [u8]> for SliceByteStream<'a> {
    open spec fn obeys_from_spec() -> bool {
        true
    }

    closed spec fn from_spec(slice: &'a [u8]) -> Self {
        SliceByteStream { slice, taken: Ghost(Seq::empty()), failure: Ghost(None) }
    }
}

impl<'a> ByteStream for SliceByteStream<'a> {
    type IoError = Infallible;

    closed spec fn taken(&self) -> Seq<u8> {
        self.taken@
    }

    closed spec fn held(&self) -> Seq<u8> {
        self.slice@
    }

    /// A slice ends with its last byte.
    closed spec fn holds_all(&self) -> bool {
        true
    }

    closed spec fn last_error(&self) -> Option<StreamError<Infallible>> {
        self.failure@
    }

    fn read_n<const N: usize>(&mut self) -> (r: Result<[u8; N], StreamError<Infallible>>)
        ensures
            r is Ok <==> N <= old(self).held().len(),
            r is Ok ==> r->Ok_0@ == old(self).held().take(N as int) && final(self).held()
                == old(self).held().skip(N as int),
            r is Err ==> r is Err && r->Err_0 is UnexpectedEof && final(self).held() == old(self).held() && final(self).taken() == old(self).taken(),
    {
        if self.slice.len() < N {
            self.failure = Ghost(Some(StreamError::UnexpectedEof));
            Err(StreamError::UnexpectedEof)
        } else {
            let (head, rest) = self.slice.split_at(N);
            let mut bytes = [0u8; N];
            let mut i: usize = 0;
            while i < N
                invariant
                    i <= N,
                    head@.len() == N,
                    bytes@.len() == N,
                    forall|j: int| 0 <= j < i ==> bytes@[j] == head@[j],
                decreases N - i,
            {
                bytes[i] = head[i];
                i += 1;
            }
            assert(bytes@ =~= head@);
            assert(head@ =~= self.slice@.take(N as int));
            assert(rest@ =~= self.slice@.skip(N as int));
            self.slice = rest;
            self.taken = Ghost(self.taken@ + bytes@);
            Ok(bytes)
        }
    }

    fn read_one(&mut self) -> (r: Result<u8, StreamError<Infallible>>)
        ensures
            r is Ok <==> 0 < old(self).held().len(),
            r is Err ==> r->Err_0 is UnexpectedEof && final(self).held() == old(self).held()
                && final(self).taken() == old(self).taken(),
    {
        if self.slice.len() == 0 {
            self.failure = Ghost(Some(StreamError::UnexpectedEof));
            Err(StreamError::UnexpectedEof)
        } else {
            let byte = self.slice[0];
            let (_, rest) = self.slice.split_at(1);
            assert(rest@ =~= self.slice@.drop_first());
            self.slice = rest;
            self.taken = Ghost(self.taken@.push(byte));
            Ok(byte)
        }
    }
}

/// An element of a pulled sequence that turns into a byte or a failure.
pub trait IntoStreamResult: Sized {
    type IoError;

    /// The byte, or the failure, this element stands for.
    spec fn stream_result(self) -> Result<u8, StreamError<Self::IoError>>;

    fn into_stream_result(self) -> (r: Result<u8, StreamError<Self::IoError>>)
        ensures
            r == self.stream_result(),
            r is Err ==> r->Err_0 is Io,
    ;
}

impl IntoStreamResult for u8 {
    type IoError = Infallible;

    /// A plain byte stands for itself.
    open spec fn stream_result(self) -> Result<u8, StreamError<Infallible>> {
        Ok(self)
    }

    fn into_stream_result(self) -> (r: Result<u8, StreamError<Infallible>>) {
        Ok(self)
    }
}

impl<E> IntoStreamResult for Result<u8, E> {
    type IoError = E;

    /// `Ok(b)` stands for `b`; `Err(e)` for the transport failure `e`.
    open spec fn stream_result(self) -> Result<u8, StreamError<E>> {
        match self {
            Ok(b) => Ok(b),
            Err(e) => Err(StreamError::Io(e)),
        }
    }

    fn into_stream_result(self) -> (r: Result<u8, StreamError<E>>) {
        match self {
            Ok(b) => Ok(b),
            Err(e) => Err(StreamError::Io(e)),
        }
    }
}

/// What pulling `n` bytes from the elements `items` gives: the bytes, or the
/// failure of the first element that is missing or stands for a failure.
pub open spec fn pull_n<T: IntoStreamResult>(items: Seq<T>, n: nat) -> Result<
    Seq<u8>,
    StreamError<T::IoError>,
>
    decreases n,
{
    if n == 0 {
        Ok(Seq::empty())
    } else {
        match pull_n(items, (n - 1) as nat) {
            Err(e) => Err(e),
            Ok(bs) => if n - 1 < items.len() {
                match items[n - 1].stream_result() {
                    Ok(b) => Ok(bs.push(b)),
                    Err(e) => Err(e),
                }
            } else {
                Err(StreamError::UnexpectedEof)
            },
        }
    }
}

/// Once pulling fails, pulling more fails the same way.
pub proof fn lemma_pull_fails_on<T: IntoStreamResult>(items: Seq<T>, m: nat, n: nat)
    requires
        m <= n,
        pull_n(items, m) is Err,
    ensures
        pull_n(items, n) == pull_n(items, m),
    decreases n,
{
    if m < n {
        lemma_pull_fails_on(items, m, (n - 1) as nat);
    }
}

/// Where pulling `n` bytes from `items` first fails: the index of the first
/// element that is missing or stands for a failure.
pub open spec fn pull_fail_index<T: IntoStreamResult>(items: Seq<T>, n: nat) -> nat
    decreases n,
{
    if n == 0 {
        0
    } else if pull_n(items, (n - 1) as nat) is Err {
        pull_fail_index(items, (n - 1) as nat)
    } else {
        (n - 1) as nat
    }
}

/// The elements left once pulling `n` bytes from `items` has failed: those
/// after the failing one, or none where the elements ran out.
pub open spec fn left_after_failure<T: IntoStreamResult>(items: Seq<T>, n: nat) -> Seq<T> {
    let j = pull_fail_index(items, n);
    if j < items.len() {
        items.skip(j + 1int)
    } else {
        Seq::empty()
    }
}

/// The first failure stays the first failure however many more are pulled.
proof fn lemma_fail_index_stays<T: IntoStreamResult>(items: Seq<T>, i: nat, n: nat)
    requires
        pull_n(items, i) is Ok,
        pull_n(items, i + 1) is Err,
        i + 1 <= n,
    ensures
        pull_fail_index(items, n) == i,
        i <= items.len(),
    decreases n,
{
    if n > i + 1 {
        lemma_pull_fails_on(items, i + 1, (n - 1) as nat);
        lemma_fail_index_stays(items, i, (n - 1) as nat);
    }
}

/// A byte source that pulls one element at a time from an iterator.
pub struct IterByteStream<I> where I: Iterator, I::Item: IntoStreamResult {
    iter: I,
    taken: Ghost<Seq<u8>>,
    failure: Ghost<Option<StreamError<<I::Item as IntoStreamResult>::IoError>>>,
}

impl<I, T> IterByteStream<I> where I: Iterator<Item = T>, T: IntoStreamResult {
    /// The iterator being read.
    pub closed spec fn source(&self) -> I {
        self.iter
    }

    pub fn new(iter: I) -> (s: Self)
        ensures
            s.source() == iter,
            s.taken() == Seq::<u8>::empty(),
            s.last_error() is None,
    {
        IterByteStream { iter, taken: Ghost(Seq::empty()), failure: Ghost(None) }
    }

    pub fn inner(&self) -> (r: &I)
        ensures
            *r == self.source(),
    {
        &self.iter
    }

    pub fn inner_mut(&mut self) -> (r: &mut I)
        ensures
            *r == old(self).source(),
            final(self).source() == *final(r),
            final(self).taken() == old(self).taken(),
            final(self).last_error() == old(self).last_error(),
    {
        &mut self.iter
    }

    pub fn into_inner(self) -> (r: I)
        ensures
            r == self.source(),
    {
        self.iter
    }
}

impl<I> From<I> for IterByteStream<I> where I: Iterator, I::Item: IntoStreamResult {
    fn from(iter: I) -> (s: Self)
        ensures
            s.source() == iter,
            s.taken() == Seq::<u8>::empty(),
            s.last_error() is None,
    {
        IterByteStream { iter, taken: Ghost(Seq::empty()), failure: Ghost(None) }
    }
}

impl<I> vstd::std_specs::convert::FromSpecImpl<I> for IterByteStream<I> where I: Iterator, I::Item: IntoStreamResult {
    open spec fn obeys_from_spec() -> bool {
        true
    }

    closed spec fn from_spec(iter: I) -> Self {
        IterByteStream { iter, taken: Ghost(Seq::empty()), failure: Ghost(None) }
    }
}

impl<I, T> ByteStream for IterByteStream<I> where I: Iterator<Item = T>, T: IntoStreamResult {
    type IoError = T::IoError;

    closed spec fn taken(&self) -> Seq<u8> {
        self.taken@
    }

    /// An iterator promises nothing here: the items it will yield are a
    /// prophetic value in Verus's iterator model (`remaining`), which a plain
    /// spec function may not read. What each read returns for those items is
    /// stated on `read_one` and `read_n` instead.
    closed spec fn held(&self) -> Seq<u8> {
        Seq::empty()
    }

    closed spec fn holds_all(&self) -> bool {
        false
    }

    closed spec fn last_error(&self) -> Option<StreamError<T::IoError>> {
        self.failure@
    }

    /// Pulls up to `N` elements: the bytes they stand for, or the failure of
    /// the first element that is missing or stands for a failure.
    fn read_n<const N: usize>(&mut self) -> (r: Result<[u8; N], StreamError<T::IoError>>)
        ensures
            final(self).source().obeys_prophetic_iter_laws() == old(self).source().obeys_prophetic_iter_laws(),
            old(self).source().obeys_prophetic_iter_laws() ==> {
                let items = old(self).source().remaining();
                match pull_n(items, N as nat) {
                    Ok(bytes) => {
                        &&& r is Ok
                        &&& r->Ok_0@ == bytes
                        &&& final(self).source().remaining() == items.skip(N as int)
                    },
                    Err(e) => {
                        &&& r == Err::<[u8; N], StreamError<T::IoError>>(e)
                        &&& final(self).source().remaining() == left_after_failure(items, N as nat)
                    },
                }
            },
    {
        let ghost items = self.iter.remaining();
        let ghost obeys = self.iter.obeys_prophetic_iter_laws();
        let mut buf = [0u8; N];
        let mut i: usize = 0;
        proof {
            assert(items.skip(0) =~= items);
            assert(buf@.take(0) =~= Seq::<u8>::empty());
        }
        while i < N
            invariant
                i <= N,
                buf@.len() == N,
                self.taken() == old(self).taken() + buf@.take(i as int),
                self.last_error() == old(self).last_error(),
                obeys == old(self).source().obeys_prophetic_iter_laws(),
                items == old(self).source().remaining(),
                self.iter.obeys_prophetic_iter_laws() == obeys,
                obeys ==> pull_n(items, i as nat) == Ok::<Seq<u8>, StreamError<T::IoError>>(
                    buf@.take(i as int),
                ),
                obeys ==> self.iter.remaining() == items.skip(i as int),
            decreases N - i,
        {
            let ghost rem = self.iter.remaining();
            let byte = match self.read_one() {
                Ok(b) => b,
                Err(e) => {
                    proof {
                        if obeys {
                            if i < items.len() {
                                assert(rem[0] == items[i as int]);
                                assert(rem.drop_first() =~= items.skip(i + 1));
                            }
                            lemma_pull_fails_on(items, (i + 1) as nat, N as nat);
                            lemma_fail_index_stays(items, i as nat, N as nat);
                            assert(i >= items.len() ==> rem.len() == 0);
                        }
                    }
                    return Err(e);
                },
            };
            proof {
                let before = buf@;
                assert(before.take(i as int).push(byte) =~= before.update(i as int, byte).take(
                    i + 1,
                ));
                if obeys {
                    assert(rem[0] == items[i as int]);
                    assert(rem.drop_first() =~= items.skip(i + 1));
                }
            }
            buf[i] = byte;
            i += 1;
        }
        assert(buf@.take(N as int) =~= buf@);
        Ok(buf)
    }

    /// Pulls one element: the byte it stands for, its failure, or
    /// `UnexpectedEof` once the iterator is done.
    fn read_one(&mut self) -> (r: Result<u8, StreamError<T::IoError>>)
        ensures
            final(self).source().obeys_prophetic_iter_laws() == old(self).source().obeys_prophetic_iter_laws(),
            old(self).source().obeys_prophetic_iter_laws() ==> {
                let items = old(self).source().remaining();
                &&& items.len() == 0 ==> (r matches Err(StreamError::UnexpectedEof))
                    && final(self).source().remaining() == items
                &&& items.len() > 0 ==> r == items[0].stream_result() && final(self).source().remaining() == items.drop_first()
            },
    {
        match self.iter.next() {
            Some(item) => {
                let r = item.into_stream_result();
                match &r {
                    Ok(b) => {
                        self.taken = Ghost(self.taken@.push(*b));
                    },
                    Err(e) => {
                        self.failure = Ghost(Some(*e));
                    },
                }
                r
            },
            None => {
                self.failure = Ghost(Some(StreamError::UnexpectedEof));
                Err(StreamError::UnexpectedEof)
            },
        }
    }
}

} // verus!
