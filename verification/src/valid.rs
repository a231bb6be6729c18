//! The validation container: a computation either yields a value or a
//! non-empty, order-preserving collection of diagnostics, each carrying a
//! trace path of location labels. Independent computations are merged with
//! [`merge`], which accumulates the failures of both sides instead of
//! stopping at the first one; dependent steps chain with an ordinary `match`.

use vstd::prelude::*;

verus! {

/// One diagnostic: a message and the path of location labels leading to it,
/// outermost label first.
pub struct Cause {
    pub message: String,
    pub path: Vec<String>,
}

/// A non-empty, order-preserving collection of diagnostics.
pub struct ValidationError {
    items: Vec<Cause>,
}

/// Either a value or a collection of diagnostics.
pub type Valid<T> = Result<T, ValidationError>;

impl ValidationError {
    /// The diagnostics held, in order.
    pub closed spec fn causes(self) -> Seq<Cause> {
        self.items@
    }

    /// There is at least one diagnostic. Constructors establish this.
    pub open spec fn wf(self) -> bool {
        self.causes().len() > 0
    }

    /// A single diagnostic with an empty trace path.
    pub fn single(message: String) -> (e: Self)
        ensures
            e.wf(),
            e.causes().len() == 1,
            e.causes()[0].message == message,
            e.causes()[0].path@.len() == 0,
    {
        let mut items: Vec<Cause> = Vec::new();
        items.push(Cause { message, path: Vec::new() });
        ValidationError { items }
    }

    /// The number of diagnostics.
    pub fn len(&self) -> (n: usize)
        ensures
            n == self.causes().len(),
    {
        self.items.len()
    }

    /// The diagnostic at a position.
    pub fn cause_at(&self, i: usize) -> (c: &Cause)
        requires
            i < self.causes().len(),
        ensures
            *c == self.causes()[i as int],
    {
        &self.items[i]
    }

    /// Appends another collection's diagnostics after this one's.
    pub fn combine(self, other: Self) -> (r: Self)
        requires
            self.wf(),
            other.wf(),
        ensures
            r.wf(),
            r.causes() == self.causes() + other.causes(),
    {
        let ghost a = self.causes();
        let ghost b = other.causes();
        let mut items = self.items;
        let mut rest = other.items;
        items.append(&mut rest);
        proof {
            assert(items@ =~= a + b);
        }
        ValidationError { items }
    }

    /// Prepends a location label to every diagnostic's trace path.
    pub fn trace(self, label: &str) -> (r: Self)
        requires
            self.wf(),
        ensures
            r.wf(),
            r.causes().len() == self.causes().len(),
            forall|i: int|
                0 <= i < self.causes().len() ==> {
                    &&& (#[trigger] r.causes()[i]).message == self.causes()[i].message
                    &&& r.causes()[i].path.deep_view() == self.causes()[i].path.deep_view().insert(
                        0,
                        label@,
                    )
                },
    {
        let ghost orig = self.causes();
        let mut rest = self.items;
        let mut items: Vec<Cause> = Vec::new();
        while rest.len() > 0
            invariant
                items@.len() + rest@.len() == orig.len(),
                rest@ =~= orig.skip(items@.len() as int),
                forall|i: int|
                    0 <= i < items@.len() ==> {
                        &&& (#[trigger] items@[i]).message == orig[i].message
                        &&& items@[i].path.deep_view() == orig[i].path.deep_view().insert(
                            0,
                            label@,
                        )
                    },
            decreases rest@.len(),
        {
            let c = rest.remove(0);
            proof {
                assert(c == orig[items@.len() as int]);
            }
            let ghost old_path = c.path.deep_view();
            let Cause { message, mut path } = c;
            let ghost pb = path@;
            let owned_label = label.to_owned();
            let ghost lval = owned_label;
            path.insert(0, owned_label);
            proof {
                pb.insert_ensures(0, lval);
                old_path.insert_ensures(0, label@);
                assert forall|j: int| 0 <= j < path.deep_view().len() implies path.deep_view()[j]
                    == old_path.insert(0, label@)[j] by {
                    assert(path.deep_view()[j] == path@[j].deep_view());
                    if j > 0 {
                        assert(path@[j] == pb[j - 1]);
                        assert(old_path[j - 1] == pb[j - 1].deep_view());
                    }
                }
                assert(path.deep_view() =~= old_path.insert(0, label@));
            }
            items.push(Cause { message, path });
            proof {
                assert(rest@ =~= orig.skip(items@.len() as int));
            }
        }
        proof {
            assert(items@.len() == orig.len());
        }
        ValidationError { items }
    }
}

/// Whether an optional accumulated error is well-formed.
pub open spec fn opt_err_wf(o: Option<ValidationError>) -> bool {
    match o {
        Some(e) => e.wf(),
        None => true,
    }
}

/// A single diagnostic from a message.
pub fn fail(message: &str) -> (e: ValidationError)
    ensures
        e.wf(),
{
    ValidationError::single(message.to_owned())
}

/// Adds a diagnostic collection to an accumulator, after what it holds.
pub fn join_err(acc: Option<ValidationError>, e: ValidationError) -> (r: Option<ValidationError>)
    requires
        opt_err_wf(acc),
        e.wf(),
    ensures
        r is Some,
        opt_err_wf(r),
        acc is None ==> (r matches Some(c) && c.causes() == e.causes()),
        acc matches Some(a) ==> (r matches Some(c) && c.causes() == a.causes() + e.causes()),
{
    match acc {
        None => Some(e),
        Some(prev) => Some(prev.combine(e)),
    }
}

/// Prepends a location label on the failure side; a success passes through.
pub fn trace_valid<T>(v: Valid<T>, label: &str) -> (r: Valid<T>)
    requires
        v is Err ==> v->Err_0.wf(),
    ensures
        r is Ok <==> v is Ok,
        v is Ok ==> r->Ok_0 == v->Ok_0,
        v is Err ==> {
            &&& r->Err_0.wf()
            &&& r->Err_0.causes().len() == v->Err_0.causes().len()
            &&& forall|i: int|
                0 <= i < v->Err_0.causes().len() ==> {
                    &&& (#[trigger] r->Err_0.causes()[i]).message == v->Err_0.causes()[i].message
                    &&& r->Err_0.causes()[i].path.deep_view() == v->Err_0.causes()[
                        i
                    ].path.deep_view().insert(0, label@)
                }
        },
{
    match v {
        Ok(t) => Ok(t),
        Err(e) => Err(e.trace(label)),
    }
}

/// Runs two independent results together: both successes pair up, and the
/// failures of both sides accumulate, left before right — no short-circuit.
pub fn merge<A, B>(a: Valid<A>, b: Valid<B>) -> (r: Valid<(A, B)>)
    requires
        a is Err ==> a->Err_0.wf(),
        b is Err ==> b->Err_0.wf(),
    ensures
        r is Ok <==> (a is Ok && b is Ok),
        a is Ok && b is Ok ==> r->Ok_0 == (a->Ok_0, b->Ok_0),
        r is Err ==> r->Err_0.wf(),
        a is Err && b is Ok ==> r->Err_0.causes() == a->Err_0.causes(),
        a is Ok && b is Err ==> r->Err_0.causes() == b->Err_0.causes(),
        a is Err && b is Err ==> r->Err_0.causes() == a->Err_0.causes() + b->Err_0.causes(),
{
    match (a, b) {
        (Ok(x), Ok(y)) => Ok((x, y)),
        (Err(e), Ok(_)) => Err(e),
        (Ok(_), Err(e)) => Err(e),
        (Err(e1), Err(e2)) => Err(e1.combine(e2)),
    }
}

} // verus!
