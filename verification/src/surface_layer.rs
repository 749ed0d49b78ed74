//! Outcomes of the local surface-layer model and the registry of named
//! surface-layer implementations.

use std::sync::Arc;
use vstd::prelude::*;
use crate::field::ModelId;
use crate::query::cache::share;
use crate::text::text_eq;

verus! {

/// Local surface-layer outcome for one point.
#[derive(Clone, Copy, Debug, PartialEq, Eq, Structural, Hash)]
pub enum SurfaceLayerStatus {
    /// All four output fields are valid.
    Valid,
    /// Query is at/below the declared minimum, at/below roughness, or above the lowest 3-D level.
    Undefined,
    /// Source anchors are physically inconsistent.
    InvalidPhysicalState,
    /// Finite deterministic arithmetic failed.
    NumericalFailure,
}

/// Surface-layer structural validation failure.
#[derive(Clone, Debug, PartialEq, Eq)]
pub enum SurfaceLayerError {
    /// Structure-of-arrays inputs have inconsistent lengths.
    LengthMismatch,
    /// A model identifier is already registered.
    DuplicateModel(ModelId),
}

/// Registry of named surface-layer implementations, each identifier once.
pub struct SurfaceLayerRegistry<M> {
    models: Vec<(ModelId, Arc<M>)>,
}

/// Position of the implementation registered under `id`, if any.
pub open spec fn model_position<M>(models: Seq<(ModelId, Arc<M>)>, id: ModelId) -> Option<int> {
    if exists|i: int| 0 <= i < models.len() && (#[trigger] models[i]).0.0@ == id.0@ {
        Some(choose|i: int| 0 <= i < models.len() && (#[trigger] models[i]).0.0@ == id.0@)
    } else {
        None
    }
}

impl<M> SurfaceLayerRegistry<M> {
    /// Registered identifiers with their implementations, in registration order.
    pub closed spec fn spec_models(self) -> Seq<(ModelId, Arc<M>)> {
        self.models@
    }

    /// Registered identifiers, in registration order.
    pub open spec fn spec_ids(self) -> Seq<ModelId> {
        self.spec_models().map_values(|entry: (ModelId, Arc<M>)| entry.0)
    }

    /// No identifier is registered twice.
    pub open spec fn wf(self) -> bool {
        forall|i: int, j: int| 0 <= i < j < self.spec_models().len()
            ==> (#[trigger] self.spec_models()[i]).0.0@ != (#[trigger] self.spec_models()[j]).0.0@
    }

    /// Creates an empty registry.
    pub fn new() -> (registry: Self)
        ensures
            registry.wf(),
            registry.spec_models().len() == 0,
    {
        SurfaceLayerRegistry { models: Vec::new() }
    }

    fn find(&self, id: &ModelId) -> (found: Option<usize>)
        ensures
            match found {
                Some(i) => i < self.spec_models().len() && self.spec_models()[i as int].0.0@ == id.0@,
                None => model_position(self.spec_models(), *id) is None,
            },
    {
        let mut k: usize = 0;
        while k < self.models.len()
            invariant
                k <= self.models@.len(),
                forall|q: int| 0 <= q < k ==> (#[trigger] self.models@[q]).0.0@ != id.0@,
            decreases self.models@.len() - k,
        {
            if text_eq(self.models[k].0.0.as_str(), id.0.as_str()) {
                return Some(k);
            }
            k += 1;
        }
        None
    }

    /// Registers one implementation under a unique identifier; an identifier
    /// already registered is refused and the registry left unchanged.
    pub fn register(&mut self, id: ModelId, model: Arc<M>) -> (result: Result<(), SurfaceLayerError>)
        requires
            old(self).wf(),
        ensures
            final(self).wf(),
            model_position(old(self).spec_models(), id) is Some ==> result == Err::<(), SurfaceLayerError>(
                SurfaceLayerError::DuplicateModel(id),
            ) && final(self).spec_models() == old(self).spec_models(),
            model_position(old(self).spec_models(), id) is None ==> result is Ok
                && final(self).spec_models() == old(self).spec_models().push((id, model)),
    {
        match self.find(&id) {
            Some(_) => Err(SurfaceLayerError::DuplicateModel(id)),
            None => {
                let ghost before = self.models@;
                self.models.push((id, model));
                proof {
                    assert forall|i: int, j: int| 0 <= i < j < self.models@.len()
                        implies (#[trigger] self.models@[i]).0.0@ != (#[trigger] self.models@[j]).0.0@ by {
                        if j == before.len() {
                            assert(self.models@[i] == before[i]);
                            if before[i].0.0@ == self.models@[j].0.0@ {
                                assert(model_position(before, self.models@[j].0) is Some);
                            }
                        } else {
                            assert(self.models@[i] == before[i]);
                            assert(self.models@[j] == before[j]);
                        }
                    }
                }
                Ok(())
            },
        }
    }

    /// Returns the implementation registered under `id`.
    pub fn get(&self, id: &ModelId) -> (model: Option<Arc<M>>)
        requires
            self.wf(),
        ensures
            match model_position(self.spec_models(), *id) {
                Some(i) => model == Some(self.spec_models()[i].1),
                None => model is None,
            },
    {
        match self.find(id) {
            Some(i) => {
                proof {
                    let p = model_position(self.spec_models(), *id)->Some_0;
                    if p != i as int {
                        if p < i as int {
                            assert(self.spec_models()[p].0.0@ != self.spec_models()[i as int].0.0@);
                        } else {
                            assert(self.spec_models()[i as int].0.0@ != self.spec_models()[p].0.0@);
                        }
                    }
                }
                Some(share(&self.models[i].1))
            },
            None => None,
        }
    }

    /// Whether an implementation is registered under `id`.
    pub fn contains(&self, id: &ModelId) -> (registered: bool)
        ensures
            registered == (model_position(self.spec_models(), *id) is Some),
    {
        self.find(id).is_some()
    }
}

} // verus!
