//! The keys and values that the layers keep from one pass to the next.

use vstd::prelude::*;

use crate::attention::attention_step;
use crate::attention::AttentionStep;
use crate::layers::kv_source;

verus! {

/// What is kept for a layer in a pass from position `index_pos` on: what its source kept, or
/// nothing in a pass from the start.
pub open spec fn kept_for<K>(
    caches: Seq<Option<K>>,
    layer: nat,
    shared: nat,
    index_pos: nat,
) -> Option<K> {
    if index_pos > 0 {
        caches[kv_source(layer, caches.len(), shared) as int]
    } else {
        None
    }
}

/// What is kept after a layer has worked with `worked_with`. Only a layer that is its own
/// source keeps it.
pub open spec fn after_layer<K>(
    caches: Seq<Option<K>>,
    layer: nat,
    shared: nat,
    worked_with: K,
) -> Seq<Option<K>> {
    if kv_source(layer, caches.len(), shared) == layer {
        caches.update(layer as int, Some(worked_with))
    } else {
        caches
    }
}

/// Nothing is kept under a layer that is not its own source.
pub open spec fn only_own<K>(caches: Seq<Option<K>>, shared: nat) -> bool {
    forall|layer: int|
        0 <= layer < caches.len() && kv_source(layer as nat, caches.len(), shared) != layer
            ==> #[trigger] caches[layer] is None
}

/// The keys and values that the layers of a model keep.
pub struct KvCaches<K> {
    slots: Vec<Option<K>>,
    shared: usize,
}

impl<K> View for KvCaches<K> {
    type V = Seq<Option<K>>;

    closed spec fn view(&self) -> Seq<Option<K>> {
        self.slots@
    }
}

impl<K> KvCaches<K> {
    /// How many layers share the keys and values of others.
    pub closed spec fn shared_layers(&self) -> nat {
        self.shared as nat
    }

    /// No more layers share than there are, and none of them keeps anything.
    pub open spec fn wf(&self) -> bool {
        self.shared_layers() <= self@.len() && only_own(self@, self.shared_layers())
    }

    /// Caches for `layers` layers, of which the last `shared` share, with nothing kept.
    pub fn new(layers: usize, shared: usize) -> (caches: KvCaches<K>)
        requires
            shared <= layers,
        ensures
            caches.wf(),
            caches@ == Seq::new(layers as nat, |layer: int| None::<K>),
            caches.shared_layers() == shared,
    {
        let mut slots: Vec<Option<K>> = Vec::new();
        let mut layer: usize = 0;
        while layer < layers
            invariant
                layer <= layers,
                slots@ == Seq::new(layer as nat, |l: int| None::<K>),
            decreases layers - layer,
        {
            slots.push(None);
            layer += 1;
            assert(slots@ =~= Seq::new(layer as nat, |l: int| None::<K>));
        }
        KvCaches { slots, shared }
    }

    /// What is kept for a layer in a pass from position `index_pos` on.
    pub fn kept(&self, layer: usize, index_pos: usize) -> (kept: Option<&K>)
        requires
            self.wf(),
            layer < self@.len(),
        ensures
            kept_for(self@, layer as nat, self.shared_layers(), index_pos as nat) == match kept {
                Some(kept) => Some(*kept),
                None => None,
            },
    {
        let step: AttentionStep = attention_step(
            layer,
            self.slots.len(),
            self.shared,
            1,
            index_pos,
        );
        if step.append {
            match &self.slots[step.source] {
                Some(kept) => Some(kept),
                None => None,
            }
        } else {
            None
        }
    }

    /// Takes in what a layer has worked with.
    pub fn keep(&mut self, layer: usize, worked_with: K)
        requires
            old(self).wf(),
            layer < old(self)@.len(),
        ensures
            final(self).wf(),
            final(self)@ == after_layer(
                old(self)@,
                layer as nat,
                old(self).shared_layers(),
                worked_with,
            ),
            final(self).shared_layers() == old(self).shared_layers(),
    {
        let step: AttentionStep = attention_step(layer, self.slots.len(), self.shared, 1, 0);
        if step.keep {
            self.slots.set(layer, Some(worked_with));
        }
    }
}

/// What a layer with its own keys and values keeps is given back in a pass that goes on: to
/// the layer itself, and to the layer that shares with it. What other layers find stays as it
/// was.
pub proof fn law_what_is_kept_is_given_back<K>(
    caches: Seq<Option<K>>,
    shared: nat,
    owner: nat,
    worked_with: K,
    reader: nat,
    index_pos: nat,
)
    requires
        owner + shared < caches.len(),
        reader < caches.len(),
        index_pos > 0,
    ensures
        ({
            let after = after_layer(caches, owner, shared, worked_with);
            &&& after.len() == caches.len()
            &&& (reader == owner || reader == caches.len() - shared + owner) ==> kept_for(
                after,
                reader,
                shared,
                index_pos,
            ) == Some(worked_with)
            &&& reader + shared < caches.len() && reader != owner ==> kept_for(
                after,
                reader,
                shared,
                index_pos,
            ) == kept_for(caches, reader, shared, index_pos)
        }),
{
}

/// A layer that shares keeps nothing of its own, as long as some layers do not share.
pub proof fn law_sharing_layers_keep_nothing<K>(
    caches: Seq<Option<K>>,
    shared: nat,
    layer: nat,
    worked_with: K,
)
    requires
        layer < caches.len(),
        shared < caches.len(),
        layer + shared >= caches.len(),
    ensures
        after_layer(caches, layer, shared, worked_with) == caches,
{
}

/// A pass from the start finds nothing kept.
pub proof fn law_the_start_finds_nothing_kept<K>(
    caches: Seq<Option<K>>,
    shared: nat,
    layer: nat,
)
    ensures
        kept_for(caches, layer, shared, 0) is None,
{
}

} // verus!
