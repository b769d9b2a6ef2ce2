//! The pipeline primitive: a fixed-capacity ring buffer, the producer and
//! consumer roles, and the loops that move elements from one stage to the next.

use vstd::prelude::*;

pub mod components;

verus! {

/// Capacity that suits a general pipeline stage.
pub const DEFAULT_BUFFER_SIZE: usize = 1024;

/// Fixed-capacity first-in first-out queue over a contiguous store.
///
/// The queue is addressed by two counters that only ever grow: `readptr()`,
/// the number of elements taken out so far, and `writeptr()`, the number put
/// in so far.  The element counted `p` lives in slot `p % capacity`.  The
/// counters themselves are ghost state; the executable fields keep the read
/// slot and the number of queued elements, so no counter can overflow.  The
/// store is asked for once, at construction, and never grows beyond the
/// capacity.
pub struct ActorBuffer<T> {
    buf: Vec<T>,
    capacity: usize,
    head: usize,
    len: usize,
    readptr: Ghost<nat>,
    writeptr: Ghost<nat>,
}

impl<T> View for ActorBuffer<T> {
    type V = Seq<T>;

    /// The queued elements, oldest first.
    closed spec fn view(&self) -> Seq<T> {
        Seq::new(self.len as nat, |i: int| self.buf@[self.slot(i)])
    }
}

impl<T> ActorBuffer<T> {
    /// Slot of the `i`-th queued element: `(readptr + i) % capacity`, written
    /// as one step around the store from the read slot.
    closed spec fn slot(&self, i: int) -> int {
        if self.head + i < self.capacity {
            self.head + i
        } else {
            self.head + i - self.capacity
        }
    }

    /// Number of elements taken out since construction.
    pub closed spec fn readptr(&self) -> nat {
        self.readptr@
    }

    /// Number of elements put in since construction.
    pub closed spec fn writeptr(&self) -> nat {
        self.writeptr@
    }

    /// Capacity fixed at construction.
    pub closed spec fn capacity(&self) -> nat {
        self.capacity as nat
    }

    /// Well-formedness: the counters bracket at most `capacity` elements and
    /// the executable fields agree with them.
    pub closed spec fn wf(&self) -> bool {
        &&& self.readptr@ <= self.writeptr@
        &&& self.writeptr@ - self.readptr@ <= self.capacity
        &&& self.len == self.writeptr@ - self.readptr@
        &&& self.capacity == 0 ==> self.head == 0
        &&& self.capacity > 0 ==> self.head == self.readptr@ % (self.capacity as nat)
        &&& self.buf@.len() <= self.capacity
        &&& self.buf@.len() < self.capacity ==> self.head + self.len == self.buf@.len()
    }

    /// A well-formed buffer holds `writeptr - readptr` elements, never more
    /// than its capacity.
    pub proof fn lemma_len(&self)
        requires
            self.wf(),
        ensures
            self.readptr() <= self.writeptr(),
            self@.len() == self.writeptr() - self.readptr(),
            self@.len() <= self.capacity() <= usize::MAX,
    {
    }

    /// An empty buffer of the default capacity.
    pub fn new() -> (b: Self)
        ensures
            b.wf(),
            b@ == Seq::<T>::empty(),
            b.capacity() == DEFAULT_BUFFER_SIZE,
            b.readptr() == 0,
            b.writeptr() == 0,
    {
        ActorBuffer::with_capacity(DEFAULT_BUFFER_SIZE)
    }

    /// An empty buffer that holds at most `capacity` elements.
    pub fn with_capacity(capacity: usize) -> (b: Self)
        ensures
            b.wf(),
            b@ == Seq::<T>::empty(),
            b.capacity() == capacity,
            b.readptr() == 0,
            b.writeptr() == 0,
    {
        let mut buf: Vec<T> = Vec::new();
        let _ = buf.try_reserve(capacity);
        let b = ActorBuffer {
            buf,
            capacity,
            head: 0,
            len: 0,
            readptr: Ghost(0),
            writeptr: Ghost(0),
        };
        assert(b@ =~= Seq::<T>::empty());
        b
    }

    /// Number of queued elements.
    pub fn size(&self) -> (n: usize)
        requires
            self.wf(),
        ensures
            n == self@.len(),
            n == self.writeptr() - self.readptr(),
    {
        self.len
    }

    /// Whether nothing is queued.
    pub fn is_empty(&self) -> (e: bool)
        requires
            self.wf(),
        ensures
            e == (self@.len() == 0),
            e == (self.readptr() == self.writeptr()),
    {
        self.len == 0
    }

    /// Whether the next `push` would exceed the capacity.
    pub fn is_full(&self) -> (f: bool)
        requires
            self.wf(),
        ensures
            f == (self@.len() == self.capacity()),
            f == (self.writeptr() - self.readptr() == self.capacity()),
    {
        self.len >= self.capacity
    }

    /// Number of elements that can still be pushed.
    pub fn room(&self) -> (n: usize)
        requires
            self.wf(),
        ensures
            n == self.capacity() - self@.len(),
    {
        self.capacity - self.len
    }

    /// The oldest element, left in place.
    pub fn peek(&self) -> (r: Option<&T>)
        requires
            self.wf(),
        ensures
            r == (if self@.len() == 0 { None } else { Some(&self@[0]) }),
    {
        if self.len == 0 {
            None
        } else {
            Some(&self.buf[self.head])
        }
    }

    /// Appends `val` unless the buffer is full.  A full buffer is left as it
    /// was and hands `val` back.
    pub fn push(&mut self, val: T) -> (r: Result<(), T>)
        requires
            old(self).wf(),
        ensures
            final(self).wf(),
            final(self).capacity() == old(self).capacity(),
            final(self).readptr() == old(self).readptr(),
            old(self)@.len() < old(self).capacity() ==> r == Ok::<(), T>(())
                && final(self)@ == old(self)@.push(val)
                && final(self).writeptr() == old(self).writeptr() + 1,
            old(self)@.len() == old(self).capacity() ==> r == Err::<(), T>(val)
                && final(self)@ == old(self)@
                && final(self).writeptr() == old(self).writeptr(),
    {
        if self.len >= self.capacity {
            return Err(val);
        }
        let ghost before = self@;
        if self.buf.len() < self.capacity {
            self.buf.push(val);
        } else {
            let at = if self.head < self.capacity - self.len {
                self.head + self.len
            } else {
                self.head - (self.capacity - self.len)
            };
            self.buf.set(at, val);
        }
        self.len = self.len + 1;
        self.writeptr = Ghost((self.writeptr@ + 1) as nat);
        assert(self@ =~= before.push(val));
        Ok(())
    }

    /// Takes the oldest element out and returns it, if there is one.
    pub fn deque_ref(&mut self) -> (r: Option<&T>)
        requires
            old(self).wf(),
        ensures
            final(self).wf(),
            final(self).capacity() == old(self).capacity(),
            final(self).writeptr() == old(self).writeptr(),
            old(self)@.len() == 0 ==> r.is_none() && final(self)@ == old(self)@
                && final(self).readptr() == old(self).readptr(),
            old(self)@.len() > 0 ==> r == Some(&old(self)@[0])
                && final(self)@ == old(self)@.skip(1)
                && final(self).readptr() == old(self).readptr() + 1,
    {
        if self.len == 0 {
            return None;
        }
        let ghost before = self@;
        let at = self.head;
        proof {
            lemma_next_slot(self.readptr@, self.capacity as nat);
        }
        self.head = if self.head + 1 == self.capacity {
            0
        } else {
            self.head + 1
        };
        self.len = self.len - 1;
        self.readptr = Ghost(self.readptr@ + 1);
        assert(self@ =~= before.skip(1));
        Some(&self.buf[at])
    }
}

/// A pipeline stage that hands elements out of a ring buffer it owns.
///
/// A stage describes itself to the verifier by its validity, by its output
/// buffer, and by what it is with another buffer in that place: two stages
/// that are equal with any one buffer put in differ in their output buffers
/// at most.  A stage that describes nothing is taken to be never valid: it
/// can be driven by unverified code only.
pub trait Provider<O>: Sized {
    /// Validity of the stage, its output buffer included.
    open spec fn provider_inv(&self) -> bool {
        false
    }

    /// The output buffer.
    open spec fn output(&self) -> ActorBuffer<O> {
        arbitrary()
    }

    /// This stage with `buf` in place of its output buffer.
    open spec fn with_output(&self, buf: ActorBuffer<O>) -> Self {
        *self
    }

    /// Lends the output buffer.  Nothing else of the stage changes, and the
    /// stage is valid again once the buffer is left well-formed.
    fn output_buffer(&mut self) -> (buf: &mut ActorBuffer<O>)
        requires
            old(self).provider_inv(),
        ensures
            buf.wf(),
            *buf == old(self).output(),
            final(self).output() == *final(buf),
            final(buf).wf() ==> final(self).provider_inv(),
            forall|x: ActorBuffer<O>| #[trigger]
                final(self).with_output(x) == old(self).with_output(x),
    ;

    /// Takes the next unread element out, if there is one.  Nothing but the
    /// output buffer changes.
    fn fetch(&mut self) -> (r: Option<&O>)
        requires
            old(self).provider_inv(),
        ensures
            final(self).provider_inv(),
            forall|x: ActorBuffer<O>| #[trigger]
                final(self).with_output(x) == old(self).with_output(x),
            final(self).output().capacity() == old(self).output().capacity(),
            old(self).output()@.len() == 0 ==> r.is_none() && final(self).output()@ == old(
                self,
            ).output()@,
            old(self).output()@.len() > 0 ==> r == Some(&old(self).output()@[0])
                && final(self).output()@ == old(self).output()@.skip(1),
    {
        self.output_buffer().deque_ref()
    }
}

/// A pipeline stage that consumes elements.
///
/// What a consumer does is described on a model of its state: `next` gives
/// the model after one input, `acts` tells whether that input was materially
/// acted upon, and `ready` tells whether the consumer can take the input at
/// all (a stage whose own output buffer is full cannot).  A consumer that
/// describes nothing is taken to be never valid: it can be driven by
/// unverified code only.
pub trait Listener<I> {
    /// Mathematical model of the consumer's state.
    type Model;

    /// Validity of the consumer.
    open spec fn listener_inv(&self) -> bool {
        false
    }

    /// The model of this consumer.
    open spec fn model(&self) -> Self::Model {
        arbitrary()
    }

    /// Whether a consumer in state `m` can take `input`.
    open spec fn ready(m: Self::Model, input: I) -> bool {
        false
    }

    /// The state that follows `m` once `input` is processed.
    open spec fn next(m: Self::Model, input: I) -> Self::Model {
        m
    }

    /// Whether processing `input` in state `m` materially acts upon it.
    open spec fn acts(m: Self::Model, input: I) -> bool {
        false
    }

    /// Consumes one input.
    fn process(&mut self, input: &I) -> (acted: bool)
        requires
            old(self).listener_inv(),
            Self::ready(old(self).model(), *input),
        ensures
            final(self).listener_inv(),
            final(self).model() == Self::next(old(self).model(), *input),
            acted == Self::acts(old(self).model(), *input),
    ;
}

/// The model of a consumer after it has processed `inputs` in order.
pub open spec fn run<I, L: Listener<I>>(m: L::Model, inputs: Seq<I>) -> L::Model
    decreases inputs.len(),
{
    if inputs.len() == 0 {
        m
    } else {
        L::next(run::<I, L>(m, inputs.drop_last()), inputs.last())
    }
}

/// Whether a consumer that starts in state `m` is ready for each of `inputs`
/// when its turn comes.
pub open spec fn ready_for<I, L: Listener<I>>(m: L::Model, inputs: Seq<I>) -> bool {
    forall|k: int|
        0 <= k < inputs.len() ==> L::ready(#[trigger] run::<I, L>(m, inputs.take(k)), inputs[k])
}

/// Most elements that one call of `drain_to_fn` moves.
pub const MAX_DRAIN: usize = 64;

/// Fetches and discards until the producer is empty; returns how many
/// elements were discarded.  Nothing but the producer's output buffer
/// changes.
pub fn drain_sink<O, P: Provider<O>>(provider: &mut P) -> (count: usize)
    requires
        old(provider).provider_inv(),
        old(provider).output().wf(),
    ensures
        final(provider).provider_inv(),
        forall|x: ActorBuffer<O>| #[trigger]
            final(provider).with_output(x) == old(provider).with_output(x),
        final(provider).output().capacity() == old(provider).output().capacity(),
        final(provider).output()@ == Seq::<O>::empty(),
        count == old(provider).output()@.len(),
{
    let ghost start = *provider;
    let mut count: usize = 0;
    proof {
        start.output().lemma_len();
    }
    loop
        invariant
            provider.provider_inv(),
            forall|x: ActorBuffer<O>| #[trigger] provider.with_output(x) == start.with_output(x),
            provider.output().capacity() == start.output().capacity(),
            provider.output()@ == start.output()@.skip(count as int),
            count <= start.output()@.len() <= usize::MAX,
        ensures
            provider.output()@.len() == 0,
            count == start.output()@.len(),
        decreases provider.output()@.len(),
    {
        match provider.fetch() {
            Some(_) => {
                count = count + 1;
            },
            None => {
                break ;
            },
        }
        proof {
            assert(provider.output()@ =~= start.output()@.skip(count as int));
        }
    }
    assert(provider.output()@ =~= Seq::<O>::empty());
    count
}

/// Fetches from the producer and feeds the consumer until the producer is
/// empty; returns how many elements were moved.
pub fn drain_to<T, P, L>(provider: &mut P, listener: &mut L) -> (count: usize) where
    P: Provider<T>,
    L: Listener<T>,

    requires
        old(provider).provider_inv(),
        old(provider).output().wf(),
        old(listener).listener_inv(),
        ready_for::<T, L>(old(listener).model(), old(provider).output()@),
    ensures
        final(provider).provider_inv(),
        forall|x: ActorBuffer<T>| #[trigger]
            final(provider).with_output(x) == old(provider).with_output(x),
        final(provider).output().capacity() == old(provider).output().capacity(),
        final(provider).output()@ == Seq::<T>::empty(),
        final(listener).listener_inv(),
        final(listener).model() == run::<T, L>(old(listener).model(), old(provider).output()@),
        count == old(provider).output()@.len(),
{
    let ghost start = *provider;
    let ghost inputs = provider.output()@;
    let ghost m0 = listener.model();
    let mut count: usize = 0;
    proof {
        start.output().lemma_len();
        assert(inputs.take(0) =~= Seq::<T>::empty());
    }
    loop
        invariant
            inputs == start.output()@,
            provider.provider_inv(),
            forall|x: ActorBuffer<T>| #[trigger] provider.with_output(x) == start.with_output(x),
            provider.output().capacity() == start.output().capacity(),
            provider.output()@ == inputs.skip(count as int),
            count <= inputs.len() <= usize::MAX,
            listener.listener_inv(),
            listener.model() == run::<T, L>(m0, inputs.take(count as int)),
            ready_for::<T, L>(m0, inputs),
        ensures
            provider.output()@.len() == 0,
            count == inputs.len(),
        decreases provider.output()@.len(),
    {
        match provider.fetch() {
            Some(t) => {
                proof {
                    assert(inputs.take(count + 1).drop_last() =~= inputs.take(count as int));
                }
                listener.process(t);
                count = count + 1;
            },
            None => {
                break ;
            },
        }
        proof {
            assert(provider.output()@ =~= inputs.skip(count as int));
        }
    }
    assert(provider.output()@ =~= Seq::<T>::empty());
    assert(inputs.take(count as int) =~= inputs);
    count
}

/// Whether a call of `listener` on `x` has returned.
pub open spec fn applied<T, L: Fn(&T) -> bool>(listener: L, x: T) -> bool {
    exists|acted: bool| #[trigger] call_ensures(listener, (&x,), acted)
}

/// Fetches from the producer and applies `listener` to each element, in
/// order, until the producer is empty or `MAX_DRAIN` elements have been
/// moved; returns how many were moved.  A return of zero means that the
/// producer was already empty.
pub fn drain_to_fn<T, P, L>(provider: &mut P, listener: L) -> (count: usize) where
    P: Provider<T>,
    L: Fn(&T) -> bool,

    requires
        old(provider).provider_inv(),
        old(provider).output().wf(),
        forall|k: int|
            0 <= k < old(provider).output()@.len() && k < MAX_DRAIN ==> call_requires(
                listener,
                (&#[trigger] old(provider).output()@[k],),
            ),
    ensures
        final(provider).provider_inv(),
        forall|x: ActorBuffer<T>| #[trigger]
            final(provider).with_output(x) == old(provider).with_output(x),
        final(provider).output().capacity() == old(provider).output().capacity(),
        count == if old(provider).output()@.len() < MAX_DRAIN {
            old(provider).output()@.len()
        } else {
            MAX_DRAIN as nat
        },
        final(provider).output()@ == old(provider).output()@.skip(count as int),
        forall|k: int|
            0 <= k < count ==> #[trigger] applied(listener, old(provider).output()@[k]),
{
    let ghost start = *provider;
    let ghost inputs = provider.output()@;
    let mut count: usize = 0;
    proof {
        start.output().lemma_len();
    }
    while count < MAX_DRAIN
        invariant
            inputs == start.output()@,
            provider.provider_inv(),
            forall|x: ActorBuffer<T>| #[trigger] provider.with_output(x) == start.with_output(x),
            provider.output().capacity() == start.output().capacity(),
            provider.output()@ == inputs.skip(count as int),
            count <= inputs.len(),
            count <= MAX_DRAIN,
            forall|k: int|
                0 <= k < inputs.len() && k < MAX_DRAIN ==> call_requires(
                    listener,
                    (&#[trigger] inputs[k],),
                ),
            forall|k: int| 0 <= k < count ==> #[trigger] applied(listener, inputs[k]),
        ensures
            count == inputs.len() || count == MAX_DRAIN,
        decreases MAX_DRAIN - count,
    {
        match provider.fetch() {
            Some(t) => {
                let acted = listener(t);
                assert(call_ensures(listener, (&inputs[count as int],), acted));
                assert(applied(listener, inputs[count as int]));
                count = count + 1;
            },
            None => {
                break ;
            },
        }
        proof {
            assert(provider.output()@ =~= inputs.skip(count as int));
        }
    }
    count
}

/// Advancing a counter by one moves its slot one step around the store.
proof fn lemma_next_slot(p: nat, capacity: nat)
    requires
        capacity > 0,
    ensures
        (p + 1) % capacity == if p % capacity + 1 == capacity {
            0
        } else {
            p % capacity + 1
        },
{
    vstd::arithmetic::div_mod::lemma_mod_adds(p as int, 1, capacity as int);
    vstd::arithmetic::div_mod::lemma_add_mod_noop(p as int, 1, capacity as int);
    if capacity == 1 {
    } else {
        vstd::arithmetic::div_mod::lemma_small_mod(1, capacity);
        if p % capacity + 1 == capacity {
            vstd::arithmetic::div_mod::lemma_mod_self_0(capacity as int);
        } else {
            vstd::arithmetic::div_mod::lemma_small_mod((p % capacity + 1) as nat, capacity);
        }
    }
}

} // verus!
