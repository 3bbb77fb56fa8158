//! The error that mounting reports: a message and the contexts that were
//! wrapped around it on its way out.
use vstd::prelude::*;

verus! {

/// A failure: what went wrong first, then each context added around it, the
/// innermost first.
#[derive(Debug)]
pub struct MountError {
    pub message: String,
    pub context: Vec<String>,
}

/// The mathematical value of a `MountError`.
pub struct MountErrorView {
    pub message: Seq<char>,
    pub context: Seq<Seq<char>>,
}

impl View for MountError {
    type V = MountErrorView;

    open spec fn view(&self) -> MountErrorView {
        MountErrorView {
            message: self.message@,
            context: self.context@.map_values(|c: String| c@),
        }
    }
}

/// The view of an optional error.
pub open spec fn result_view(r: Result<(), MountError>) -> Result<(), MountErrorView> {
    match r {
        Ok(()) => Ok(()),
        Err(e) => Err(e@),
    }
}

impl MountError {
    /// A new error with this message and no context.
    pub fn new(message: String) -> (e: MountError)
        ensures
            e@.message == message@,
            e@.context == Seq::<Seq<char>>::empty(),
    {
        let e = MountError { message, context: Vec::new() };
        proof {
            assert(e@.context =~= Seq::<Seq<char>>::empty());
        }
        e
    }

    /// The same error with one more context around it.
    pub fn with_context(self, context: String) -> (e: MountError)
        ensures
            e@.message == self@.message,
            e@.context == self@.context.push(context@),
    {
        let mut e = self;
        let ghost before = e.context@;
        e.context.push(context);
        proof {
            assert(e.context@ == before.push(context));
            assert(e@.context =~= self@.context.push(context@));
        }
        e
    }
}

} // verus!
