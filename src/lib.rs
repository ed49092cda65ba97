//! Infers a JSON Type Definition (RFC 8927) schema that accepts every example
//! document it has been shown.
//!
//! Examples are folded one at a time into an inferred-schema tree
//! ([`inferred::InferredSchema`]); the tree is then translated into a schema
//! ([`schema::Schema`]).
use vstd::prelude::*;

pub mod hints;
pub mod inferred;
pub mod laws;
pub mod number;
pub mod schema;
pub mod timestamp;
pub mod value;

pub use crate::hints::{HintSet, Hints};
pub use crate::inferred::InferredSchema;
pub use crate::number::NumType;
pub use crate::schema::Schema;
pub use crate::value::Value;

use crate::hints::path_view;
use crate::inferred::{accepts, extends, merged, step, unknown, wf, Shape};
use crate::schema::emits_to;

verus! {

/// Keeps track of a sequence of examples, and turns them into a schema.
pub struct Inferrer {
    inference: InferredSchema,
    hints: Hints,
}

impl Inferrer {
    /// The inference so far.
    pub closed spec fn inference(&self) -> InferredSchema {
        self.inference
    }

    /// The hints of this run.
    pub closed spec fn hints(&self) -> Hints {
        self.hints
    }

    /// An inferrer that has seen no example yet.
    pub fn new(hints: Hints) -> (r: Inferrer)
        ensures
            r.hints() == hints,
            !r.inference().nullable,
            r.inference().shape() == Shape::Unknown,
            wf(r.inference()),
    {
        Inferrer { inference: unknown(), hints }
    }

    /// Folds in one more example, at the root.
    pub fn infer(self, value: Value) -> (r: Inferrer)
        ensures
            r.hints() == self.hints(),
            r.inference().nullable == (self.inference().nullable || value is Null),
            r.inference().shape() == step(
                self.inference().shape(),
                value,
                Seq::empty(),
                self.hints(),
            ),
            accepts(r.inference(), value, self.hints().default_num_type),
            extends(self.inference(), r.inference(), self.hints().default_num_type),
            wf(self.inference()) ==> wf(r.inference()),
            wf(self.inference()) ==> merged(
                self.inference(),
                value,
                Seq::empty(),
                self.hints(),
                r.inference(),
            ),
    {
        let root: Vec<String> = Vec::new();
        assert(path_view(root@) =~= Seq::empty());
        let inference = self.inference.infer(&value, &root, &self.hints);
        Inferrer { inference, hints: self.hints }
    }

    /// The schema of everything folded in so far.
    pub fn into_schema(self) -> (r: Schema)
        ensures
            emits_to(self.inference(), r, self.hints().default_num_type),
    {
        self.inference.emit(self.hints.default_num_type)
    }
}

} // verus!
