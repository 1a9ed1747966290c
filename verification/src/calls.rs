//! Callbacks, and the record of the calls that were made of them.
//!
//! A callback is handed over to a `Callback`, and can from then on only be called through what
//! `Callback::lend` gives: a right to call it once, which is used up with the call, and with
//! which the call is put on the record.
use vstd::prelude::*;

use crate::def::FdbTime;
use crate::ts_model::Log;
use crate::tsdb::Tsl;

verus! {

/// A call: the log and the data that were shown, and what the callback returned.
pub struct Call {
    pub log: Log,
    pub data: Seq<u8>,
    pub stop: bool,
}

/// The calls that were made, in order.
pub struct Record {
    calls: Ghost<Seq<Call>>,
}

impl Record {
    /// The calls on record.
    pub closed spec fn calls(&self) -> Seq<Call> {
        self.calls@
    }

    /// A record without calls.
    pub fn new() -> (r: Self)
        ensures
            r.calls() == Seq::<Call>::empty(),
    {
        Record { calls: Ghost(Seq::empty()) }
    }
}

/// The right to call a callback once.
pub struct Once<'a, G> {
    g: G,
    record: &'a mut Record,
}

/// A callback whose calls are put on a record.
pub struct Callback<'a, F> {
    f: F,
    record: &'a mut Record,
}

impl<'a, F> Callback<'a, F> {
    /// The callback.
    pub closed spec fn callback(&self) -> F {
        self.f
    }

    /// The record.
    pub closed spec fn record(&self) -> &'a mut Record {
        self.record
    }

    /// Hand a callback over.
    pub fn new(f: F, record: &'a mut Record) -> (r: Self)
        ensures
            r.callback() == f,
            *r.record() == *old(record),
            *final(record) == *final(r.record()),
    {
        Callback { f, record }
    }

    /// The right to call it once.
    pub fn lend<'b>(&'b mut self) -> (r: Once<'b, &'b mut F>)
        ensures
            *r.callback() == old(self).callback(),
            *r.record() == *old(self).record(),
            final(self).callback() == *final(r.callback()),
            *final(self).record() == *final(r.record()),
            *final(final(self).record()) == *final(old(self).record()),
    {
        Once { g: &mut self.f, record: &mut *self.record }
    }

    /// Give the callback up: the record stays as it is.
    pub fn end(self)
        ensures
            *final(self.record()) == *self.record(),
    {
    }
}

impl<'a, G> Once<'a, G> {
    /// The callback.
    pub closed spec fn callback(&self) -> G {
        self.g
    }

    /// The record.
    pub closed spec fn record(&self) -> &'a mut Record {
        self.record
    }
}

impl<'a, G: FnOnce(&Tsl, &[u8]) -> bool> Once<'a, G> {
    /// Call it.
    pub fn call(self, tsl: &Tsl, data: &[u8]) -> (r: bool)
        requires
            call_requires(self.callback(), (tsl, data)),
        ensures
            call_ensures(self.callback(), (tsl, data), r),
            final(self.record()).calls() == (*self.record()).calls().push(
                (Call { log: tsl.log(), data: data@, stop: r }),
            ),
    {
        let r: bool = (self.g)(tsl, data);
        self.record.calls = Ghost(
            self.record.calls@.push(Call { log: tsl.log(), data: data@, stop: r }),
        );
        r
    }
}

/// A clock, with the times that were read from it.
pub struct Clock<C> {
    source: C,
    readings: Ghost<Seq<FdbTime>>,
}

/// The right to read a clock once.
pub struct Reading<'a, G> {
    g: G,
    readings: &'a mut Ghost<Seq<FdbTime>>,
}

impl<C> Clock<C> {
    /// Where the time comes from.
    pub closed spec fn source(&self) -> C {
        self.source
    }

    /// The times that were read, in order.
    pub closed spec fn readings(&self) -> Seq<FdbTime> {
        self.readings@
    }

    /// Hand over where the time comes from.
    pub fn new(source: C) -> (r: Self)
        ensures
            r.source() == source,
            r.readings() == Seq::<FdbTime>::empty(),
    {
        Clock { source, readings: Ghost(Seq::empty()) }
    }

    /// The right to read it once.
    pub fn lend<'b>(&'b mut self) -> (r: Reading<'b, &'b mut C>)
        ensures
            *r.source() == old(self).source(),
            (*r.readings())@ == old(self).readings(),
            final(self).source() == *final(r.source()),
            final(self).readings() == final(r.readings())@,
    {
        Reading { g: &mut self.source, readings: &mut self.readings }
    }
}

impl<'a, G> Reading<'a, G> {
    /// Where the time comes from.
    pub closed spec fn source(&self) -> G {
        self.g
    }

    /// The times that were read.
    pub closed spec fn readings(&self) -> &'a mut Ghost<Seq<FdbTime>> {
        self.readings
    }
}

impl<'a, G: FnOnce() -> FdbTime> Reading<'a, G> {
    /// Read the time.
    pub fn read(self) -> (t: FdbTime)
        requires
            call_requires(self.source(), ()),
        ensures
            call_ensures(self.source(), (), t),
            final(self.readings())@ == (*self.readings())@.push(t),
    {
        let t: FdbTime = (self.g)();
        *self.readings = Ghost(self.readings@.push(t));
        t
    }
}

} // verus!
