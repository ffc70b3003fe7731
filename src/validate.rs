//! Validation: an ordered pipeline of checks that accept or reject a
//! command before it is trusted.
use crate::commands::{Command, ValidationError};
use std::marker::PhantomData;
use vstd::prelude::*;

verus! {

/// A check that accepts a command or rejects it with a validation error.
pub trait Validator<C: Command> {
    /// `Ok` where the command is acceptable, else why it is not.
    fn validate(&self, command: &C) -> Result<(), ValidationError>;
}

/// The first rejection among the outcomes of validators, taken in
/// registration order, or `Ok` where every one accepted.
pub open spec fn first_failure(outcomes: Seq<Result<(), ValidationError>>) -> Result<
    (),
    ValidationError,
>
    decreases outcomes.len(),
{
    if outcomes.len() == 0 {
        Ok(())
    } else if outcomes[0] is Err {
        outcomes[0]
    } else {
        first_failure(outcomes.drop_first())
    }
}

/// Every rejection among the outcomes of validators, in registration order.
pub open spec fn failures(outcomes: Seq<Result<(), ValidationError>>) -> Seq<ValidationError>
    decreases outcomes.len(),
{
    if outcomes.len() == 0 {
        Seq::empty()
    } else {
        let rest = failures(outcomes.drop_last());
        match outcomes.last() {
            Err(e) => rest.push(e),
            Ok(_) => rest,
        }
    }
}

/// The outcome of a fail-fast run over validator outcomes given in
/// registration order: the first rejection, or `Ok` where none rejected.
pub fn first_rejection(outcomes: Vec<Result<(), ValidationError>>) -> (r: Result<(), ValidationError>)
    ensures
        r == first_failure(outcomes@),
{
    let ghost all = outcomes@;
    let mut rest = outcomes;
    let ghost mut k: int = 0;
    while rest.len() > 0
        invariant
            all == outcomes@,
            0 <= k <= all.len(),
            rest@ == all.subrange(k, all.len() as int),
            first_failure(all) == first_failure(rest@),
        decreases rest@.len(),
    {
        let ghost prev = rest@;
        let o = rest.remove(0);
        proof {
            assert(o == prev[0]);
            assert(rest@ =~= prev.drop_first());
        }
        if o.is_err() {
            return o;
        }
        proof {
            assert(rest@ =~= all.subrange(k + 1, all.len() as int));
            k = k + 1;
        }
    }
    Ok(())
}

/// Every rejection among validator outcomes given in registration order,
/// in that order.
pub fn all_rejections(outcomes: Vec<Result<(), ValidationError>>) -> (r: Vec<ValidationError>)
    ensures
        r@ == failures(outcomes@),
{
    let ghost all = outcomes@;
    let mut rest = outcomes;
    let mut out: Vec<ValidationError> = Vec::new();
    let ghost mut k: int = 0;
    while rest.len() > 0
        invariant
            all == outcomes@,
            0 <= k <= all.len(),
            rest@ == all.subrange(k, all.len() as int),
            out@ == failures(all.subrange(0, k)),
        decreases rest@.len(),
    {
        let o = rest.remove(0);
        proof {
            let s = all.subrange(0, k + 1);
            assert(s.drop_last() =~= all.subrange(0, k));
            assert(s.last() == o);
        }
        match o {
            Err(e) => out.push(e),
            Ok(_) => {},
        }
        proof {
            assert(rest@ =~= all.subrange(k + 1, all.len() as int));
            k = k + 1;
        }
    }
    assert(all.subrange(0, all.len() as int) =~= all);
    out
}

/// A fail-fast run stops at the first rejection that a collect-all run
/// gathers: both see the same rejections, in the same order.
pub proof fn lemma_first_failure_leads_failures(outcomes: Seq<Result<(), ValidationError>>)
    ensures
        first_failure(outcomes) is Ok <==> failures(outcomes).len() == 0,
        first_failure(outcomes) matches Err(e) ==> failures(outcomes)[0] == e,
    decreases outcomes.len(),
{
    if outcomes.len() > 0 {
        let rest = outcomes.drop_first();
        lemma_first_failure_leads_failures(rest);
        lemma_failures_prepend(outcomes[0], rest);
        assert(outcomes =~= seq![outcomes[0]] + rest);
    }
}

/// The rejections of an outcome followed by more outcomes.
proof fn lemma_failures_prepend(o: Result<(), ValidationError>, rest: Seq<Result<(), ValidationError>>)
    ensures
        failures(seq![o] + rest) == match o {
            Err(e) => seq![e] + failures(rest),
            Ok(_) => failures(rest),
        },
    decreases rest.len(),
{
    let s = seq![o] + rest;
    let none = Seq::<Result<(), ValidationError>>::empty();
    assert(failures(none) == Seq::<ValidationError>::empty());
    if rest.len() == 0 {
        assert(s.drop_last() =~= none);
        assert(s.last() == o);
        assert(failures(s) == match o {
            Err(e) => failures(none).push(e),
            Ok(_) => failures(none),
        });
        assert(rest =~= none);
        match o {
            Err(e) => {
                assert(failures(none).push(e) =~= seq![e] + failures(none));
            },
            Ok(_) => {},
        }
    } else {
        let front = rest.drop_last();
        lemma_failures_prepend(o, front);
        assert(s.drop_last() =~= seq![o] + front);
        assert(s.last() == rest.last());
        assert(failures(s) == match rest.last() {
            Err(e2) => failures(seq![o] + front).push(e2),
            Ok(_) => failures(seq![o] + front),
        });
        assert(failures(rest) == match rest.last() {
            Err(e2) => failures(front).push(e2),
            Ok(_) => failures(front),
        });
        match o {
            Err(e) => {
                match rest.last() {
                    Err(e2) => {
                        assert((seq![e] + failures(front)).push(e2) =~= seq![e] + failures(
                            front,
                        ).push(e2));
                    },
                    Ok(_) => {},
                }
            },
            Ok(_) => {},
        }
    }
}

/// The validators of one command kind, in registration order.
/// Whether `validator` may return `outcome` when it checks `command`.
pub open spec fn validates_as<C: Command, V: Validator<C>>(
    validator: V,
    command: C,
    outcome: Result<(), ValidationError>,
) -> bool {
    call_ensures(V::validate, (&validator, &command), outcome)
}

/// Whether each validator gives one outcome on `command`.
pub open spec fn deterministic_on<C: Command, V: Validator<C>>(validators: Seq<V>, command: C) -> bool {
    forall|i: int, a: Result<(), ValidationError>, b: Result<(), ValidationError>|
        0 <= i < validators.len() && #[trigger] validates_as(validators[i], command, a)
            && #[trigger] validates_as(validators[i], command, b) ==> a == b
}

/// What a fail-fast run returns: the validators before position `k`
/// accepted, and the one at `k`, if any, rejected with `r`; `Ok` where all
/// accepted.
pub open spec fn fail_fast_at<C: Command, V: Validator<C>>(
    validators: Seq<V>,
    command: C,
    k: int,
    r: Result<(), ValidationError>,
) -> bool {
    &&& 0 <= k <= validators.len()
    &&& forall|i: int| 0 <= i < k ==> #[trigger] validates_as(validators[i], command, Ok(()))
    &&& if k < validators.len() {
        r is Err && validates_as(validators[k], command, r)
    } else {
        r is Ok
    }
}

/// Whether `outcomes` are outcomes of the validators on `command`, one
/// each, in registration order.
pub open spec fn outcomes_of<C: Command, V: Validator<C>>(
    validators: Seq<V>,
    command: C,
    outcomes: Seq<Result<(), ValidationError>>,
) -> bool {
    &&& outcomes.len() == validators.len()
    &&& forall|i: int|
        0 <= i < outcomes.len() ==> #[trigger] validates_as(validators[i], command, outcomes[i])
}

/// The first rejection among outcomes whose first `k` are acceptances.
proof fn lemma_first_failure_after(outcomes: Seq<Result<(), ValidationError>>, k: int)
    requires
        0 <= k <= outcomes.len(),
        forall|i: int| 0 <= i < k ==> #[trigger] outcomes[i] is Ok,
        k < outcomes.len() ==> outcomes[k] is Err,
    ensures
        first_failure(outcomes) == if k < outcomes.len() {
            outcomes[k]
        } else {
            Ok(())
        },
    decreases k,
{
    if k > 0 {
        let rest = outcomes.drop_first();
        assert forall|i: int| 0 <= i < k - 1 implies #[trigger] rest[i] is Ok by {
            assert(outcomes[i + 1] is Ok);
        }
        lemma_first_failure_after(rest, k - 1);
    } else if outcomes.len() > 0 {
        assert(outcomes[0] is Err);
    }
}

/// Where each validator gives one outcome on a command, a fail-fast run
/// returns the first rejection of a collect-all run: `Ok` exactly where the
/// collect-all run finds none, else its first.
pub proof fn lemma_fail_fast_agrees<C: Command, V: Validator<C>>(
    validators: Seq<V>,
    command: C,
    k: int,
    r: Result<(), ValidationError>,
    outcomes: Seq<Result<(), ValidationError>>,
)
    requires
        deterministic_on(validators, command),
        fail_fast_at(validators, command, k, r),
        outcomes_of(validators, command, outcomes),
    ensures
        r == first_failure(outcomes),
        r is Ok <==> failures(outcomes).len() == 0,
        r matches Err(e) ==> failures(outcomes)[0] == e,
{
    assert forall|i: int| 0 <= i < k implies #[trigger] outcomes[i] is Ok by {
        assert(validates_as(validators[i], command, outcomes[i]));
        assert(validates_as(validators[i], command, Ok(())));
    }
    if k < validators.len() {
        assert(validates_as(validators[k], command, outcomes[k]));
        assert(validates_as(validators[k], command, r));
        assert(r == outcomes[k]);
    } else {
        assert(r == Ok::<(), ValidationError>(())) by {
            match r {
                Ok(u) => assert(u == ()),
                Err(_) => {},
            }
        }
    }
    lemma_first_failure_after(outcomes, k);
    lemma_first_failure_leads_failures(outcomes);
}

/// The validators of one command kind, in registration order. By default
/// they are boxed, so that validators of different types can be registered
/// together.
pub struct Validators<C: Command, V: Validator<C> = Box<dyn Validator<C>>> {
    validators: Vec<V>,
    marker: PhantomData<C>,
}

impl<C: Command, V: Validator<C>> Validators<C, V> {
    /// The registered validators, in registration order.
    pub closed spec fn registered(&self) -> Seq<V> {
        self.validators@
    }

    /// The number of registered validators.
    pub open spec fn count(&self) -> nat {
        self.registered().len()
    }

    /// An empty pipeline.
    pub fn new() -> (r: Self)
        ensures
            r.count() == 0,
    {
        Validators { validators: Vec::new(), marker: PhantomData }
    }

    /// Registers a validator after those already registered.
    pub fn register(&mut self, validator: V)
        ensures
            final(self).registered() == old(self).registered().push(validator),
            final(self).count() == old(self).count() + 1,
    {
        self.validators.push(validator);
    }

    /// Runs the validators in registration order and stops at the first
    /// rejection, which it returns; `Ok` where every one accepts.
    pub fn validate(&self, command: &C) -> (r: Result<(), ValidationError>)
        ensures
            self.count() == 0 ==> r is Ok,
            exists|k: int| fail_fast_at(self.registered(), *command, k, r),
    {
        let mut i: usize = 0;
        while i < self.validators.len()
            invariant
                i <= self.validators@.len(),
                forall|j: int|
                    0 <= j < i ==> #[trigger] validates_as(self.validators@[j], *command, Ok(())),
            decreases self.validators@.len() - i,
        {
            let outcome = self.validators[i].validate(command);
            assert(validates_as(self.validators@[i as int], *command, outcome));
            match outcome {
                Err(e) => {
                    assert(fail_fast_at(self.registered(), *command, i as int, Err(e)));
                    return Err(e);
                },
                Ok(u) => {
                    assert(u == ());
                    assert(outcome == Ok::<(), ValidationError>(()));
                },
            }
            i = i + 1;
        }
        assert(fail_fast_at(self.registered(), *command, i as int, Ok(())));
        Ok(())
    }

    /// Runs every validator in registration order and returns all the
    /// rejections, in that order.
    pub fn validate_all(&self, command: &C) -> (r: Vec<ValidationError>)
        ensures
            exists|outcomes: Seq<Result<(), ValidationError>>|
                outcomes_of(self.registered(), *command, outcomes) && r@ == failures(outcomes),
            self.count() == 0 ==> r@.len() == 0,
    {
        let mut outcomes: Vec<Result<(), ValidationError>> = Vec::new();
        let mut i: usize = 0;
        while i < self.validators.len()
            invariant
                i <= self.validators@.len(),
                outcomes@.len() == i,
                forall|j: int|
                    0 <= j < i ==> #[trigger] validates_as(self.validators@[j], *command, outcomes@[j]),
            decreases self.validators@.len() - i,
        {
            let outcome = self.validators[i].validate(command);
            outcomes.push(outcome);
            i = i + 1;
        }
        let ghost all = outcomes@;
        assert(outcomes_of(self.registered(), *command, all));
        assert(failures(Seq::<Result<(), ValidationError>>::empty()).len() == 0);
        all_rejections(outcomes)
    }

    /// Whether no validator is registered.
    pub fn is_empty(&self) -> (r: bool)
        ensures
            r == (self.count() == 0),
    {
        self.validators.len() == 0
    }

    /// The number of registered validators.
    pub fn len(&self) -> (r: usize)
        ensures
            r == self.count(),
    {
        self.validators.len()
    }
}

impl<C: Command> Validators<C, Box<dyn Validator<C>>> {
    /// Registers a validator of any type after those already registered.
    pub fn add<W: Validator<C> + 'static>(&mut self, validator: W)
        ensures
            final(self).count() == old(self).count() + 1,
    {
        self.register(Box::new(validator));
    }
}

impl<C: Command, V: Validator<C>> Default for Validators<C, V> {
    /// An empty pipeline.
    fn default() -> (r: Self)
        ensures
            r.count() == 0,
    {
        Self::new()
    }
}

impl<C: Command> Validator<C> for Box<dyn Validator<C>> {
    fn validate(&self, command: &C) -> Result<(), ValidationError> {
        (**self).validate(command)
    }
}

/// A validator made of a function, which must accept being called on any
/// command.
pub struct FnValidator<C: Command, F: Fn(&C) -> Result<(), ValidationError>> {
    func: F,
    marker: PhantomData<C>,
}

impl<C: Command, F: Fn(&C) -> Result<(), ValidationError>> FnValidator<C, F> {
    #[verifier::type_invariant]
    spec fn callable(&self) -> bool {
        forall|c: &C| #[trigger] self.func.requires((c,))
    }
}

impl<C: Command, F: Fn(&C) -> Result<(), ValidationError>> FnValidator<C, F> {
    /// The function this validator calls.
    pub closed spec fn function(&self) -> F {
        self.func
    }

    /// A validator that calls `func`.
    pub fn new(func: F) -> (r: Self)
        requires
            forall|c: &C| #[trigger] func.requires((c,)),
        ensures
            r.function() == func,
    {
        FnValidator { func, marker: PhantomData }
    }
}

impl<C: Command, F: Fn(&C) -> Result<(), ValidationError>> Validator<C> for FnValidator<C, F> {
    fn validate(&self, command: &C) -> Result<(), ValidationError> {
        proof {
            use_type_invariant(self);
        }
        (self.func)(command)
    }
}

} // verus!
