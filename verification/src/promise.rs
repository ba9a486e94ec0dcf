//! A promise is a value that is computed when it is first asked for, on the
//! thread that asks.

use vstd::prelude::*;

verus! {

/// Work that gives a `T` when it is run, once. It can be handed to another
/// thread.
trait Task<T>: Send {
    /// Whether the work may be run.
    spec fn ready(&self) -> bool;

    /// Whether the work may give `r`.
    spec fn yields(&self, r: T) -> bool;

    /// Runs the work.
    fn run(&mut self) -> (r: T)
        requires
            old(self).ready(),
        ensures
            old(self).yields(r),
    ;
}

/// A value that is there already.
struct Ready<T> {
    value: Option<T>,
}

impl<T: Send> Task<T> for Ready<T> {
    closed spec fn ready(&self) -> bool {
        self.value is Some
    }

    closed spec fn yields(&self, r: T) -> bool {
        self.value == Some(r)
    }

    fn run(&mut self) -> (r: T) {
        self.value.take().unwrap()
    }
}

/// A function that is called when the value is asked for.
struct Once<F> {
    fun: Option<F>,
}

impl<T, F: FnOnce() -> T + Send> Task<T> for Once<F> {
    closed spec fn ready(&self) -> bool {
        self.fun is Some && call_requires(self.fun->0, ())
    }

    closed spec fn yields(&self, r: T) -> bool {
        self.fun is Some && call_ensures(self.fun->0, (), r)
    }

    fn run(&mut self) -> (r: T) {
        let fun = self.fun.take().unwrap();
        fun()
    }
}

/// A promise whose value is handed to a function.
#[verifier::reject_recursive_types(T)]
struct Mapped<T, F> {
    parts: Option<MappedParts<T, F>>,
}

#[verifier::reject_recursive_types(T)]
struct MappedParts<T, F> {
    promise: Promise<T>,
    fun: F,
}

impl<T, RV, F: FnOnce(T) -> RV + Send> Task<RV> for Mapped<T, F> {
    closed spec fn ready(&self) -> bool {
        &&& self.parts is Some
        &&& self.parts->0.promise.ready()
        &&& forall|t: T| #[trigger]
            self.parts->0.promise.yields(t) ==> call_requires(self.parts->0.fun, (t,))
    }

    closed spec fn yields(&self, r: RV) -> bool {
        &&& self.parts is Some
        &&& exists|t: T| #[trigger]
            self.parts->0.promise.yields(t) && call_ensures(self.parts->0.fun, (t,), r)
    }

    fn run(&mut self) -> (r: RV) {
        let parts = self.parts.take().unwrap();
        let fun = parts.fun;
        let t = parts.promise.wait();
        fun(t)
    }
}

/// Promises that are waited for one after the other.
#[verifier::reject_recursive_types(T)]
struct Joined<T> {
    promises: Option<Vec<Promise<T>>>,
}

impl<T> Task<Vec<T>> for Joined<T> {
    closed spec fn ready(&self) -> bool {
        &&& self.promises is Some
        &&& forall|i: int| 0 <= i < self.promises->0@.len() ==> (#[trigger] self.promises->0@[i]).ready()
    }

    closed spec fn yields(&self, r: Vec<T>) -> bool {
        &&& self.promises is Some
        &&& r@.len() == self.promises->0@.len()
        &&& forall|i: int|
            0 <= i < r@.len() ==> (#[trigger] self.promises->0@[i]).yields(r@[i])
    }

    fn run(&mut self) -> (r: Vec<T>) {
        let mut promises = self.promises.take().unwrap();
        let ghost all = promises@;
        // Turned round first, so that the promises can be moved out one by
        // one from the back and still be waited for in their order.
        let mut rest: Vec<Promise<T>> = Vec::new();
        while promises.len() > 0
            invariant
                promises@.len() <= all.len(),
                promises@ == all.subrange(0, promises@.len() as int),
                rest@.len() == all.len() - promises@.len(),
                forall|i: int| 0 <= i < rest@.len() ==> rest@[i] == all[all.len() - 1 - i],
            decreases promises@.len(),
        {
            let promise = promises.pop().unwrap();
            rest.push(promise);
        }
        let mut values: Vec<T> = Vec::new();
        while rest.len() > 0
            invariant
                rest@.len() + values@.len() == all.len(),
                forall|i: int| 0 <= i < rest@.len() ==> rest@[i] == all[all.len() - 1 - i],
                forall|i: int| 0 <= i < all.len() ==> (#[trigger] all[i]).ready(),
                forall|i: int| 0 <= i < values@.len() ==> (#[trigger] all[i]).yields(values@[i]),
            decreases rest@.len(),
        {
            let ghost n = rest@.len();
            let promise = rest.pop().unwrap();
            assert(promise == all[all.len() - n]);
            let value = promise.wait();
            values.push(value);
        }
        values
    }
}

/// A handle for a value that will be there later, for one consumer.
#[verifier::reject_recursive_types(T)]
pub struct Promise<T> {
    task: Box<dyn Task<T>>,
}

impl<T> Promise<T> {
    /// Whether waiting is in order: the work behind the promise may be run.
    pub closed spec fn ready(&self) -> bool {
        self.task.ready()
    }

    /// Whether waiting may give `r`.
    pub closed spec fn yields(&self, r: T) -> bool {
        self.task.yields(r)
    }

    /// Runs the work behind the promise and returns its value.
    pub fn wait(self) -> (r: T)
        requires
            self.ready(),
        ensures
            self.yields(r),
    {
        let mut this = self;
        this.task.run()
    }

    /// A promise that calls `fun` when it is waited for, on the thread that
    /// waits.
    pub fn new_once<FN>(fun: FN) -> (p: Promise<T>) where FN: FnOnce() -> T + Send + 'static
        ensures
            p.ready() == call_requires(fun, ()),
            forall|r: T| p.yields(r) == call_ensures(fun, (), r),
    {
        Promise { task: Box::new(Once { fun: Some(fun) }) }
    }

    /// A promise of a value that is there already.
    pub fn new(value: T) -> (p: Promise<T>) where T: Send + 'static
        ensures
            p.ready(),
            forall|r: T| p.yields(r) == (r == value),
    {
        Promise { task: Box::new(Ready { value: Some(value) }) }
    }

    /// A promise of what `fun` makes of this promise's value. Both run when
    /// the new promise is waited for.
    pub fn map<FN, RV>(self, fun: FN) -> (p: Promise<RV>) where
        T: 'static,
        FN: FnOnce(T) -> RV + Send + 'static,

        ensures
            p.ready() == (self.ready() && forall|t: T| #[trigger]
                self.yields(t) ==> call_requires(fun, (t,))),
            forall|r: RV|
                p.yields(r) == exists|t: T| #[trigger]
                    self.yields(t) && call_ensures(fun, (t,), r),
    {
        let ghost inner = self;
        let mapped = Mapped { parts: Some(MappedParts { promise: self, fun }) };
        let ghost m = mapped;
        let p = Promise { task: Box::new(mapped) };
        proof {
            assert(forall|r: RV| p.yields(r) == m.yields(r));
            assert(m.parts->0.promise == inner);
            assert forall|r: RV|
                p.yields(r) == exists|t: T| #[trigger]
                    inner.yields(t) && call_ensures(fun, (t,), r) by {
                if p.yields(r) {
                    let t = choose|t: T| #[trigger]
                        inner.yields(t) && call_ensures(fun, (t,), r);
                    assert(inner.yields(t) && call_ensures(fun, (t,), r));
                }
                if exists|t: T| #[trigger] inner.yields(t) && call_ensures(fun, (t,), r) {
                    let t = choose|t: T| #[trigger]
                        inner.yields(t) && call_ensures(fun, (t,), r);
                    assert(inner.yields(t) && call_ensures(fun, (t,), r));
                    assert(m.parts->0.promise.yields(t) && call_ensures(m.parts->0.fun, (t,), r));
                    assert(m.yields(r));
                    assert(p.yields(r));
                }
            }
        }
        p
    }

    /// One promise of the values of all of `promises`, in their order. They
    /// are waited for one after the other when the new promise is.
    pub fn join(promises: Vec<Promise<T>>) -> (p: Promise<Vec<T>>) where T: 'static
        ensures
            p.ready() == forall|i: int|
                0 <= i < promises@.len() ==> (#[trigger] promises@[i]).ready(),
            forall|r: Vec<T>|
                p.yields(r) == (r@.len() == promises@.len() && forall|i: int|
                    0 <= i < r@.len() ==> (#[trigger] promises@[i]).yields(r@[i])),
    {
        Promise { task: Box::new(Joined { promises: Some(promises) }) }
    }
}

} // verus!
