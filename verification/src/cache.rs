//! The output cache of one evaluation pass: every output that the pass has
//! computed, with its value, and the nodes it computed, in order.

use crate::types::{NodeId, NodeParameters, OutputId};
use std::collections::HashMap;
use vstd::prelude::*;

verus! {

broadcast use vstd::std_specs::hash::group_hash_axioms;

/// A write-once table from output identity to value. A pass starts with an
/// empty one; what it holds is final until the pass ends.
pub struct OutputsCache {
    values: HashMap<usize, NodeParameters>,
    computed: Vec<NodeId>,
}

impl View for OutputsCache {
    type V = Map<OutputId, NodeParameters>;

    closed spec fn view(&self) -> Map<OutputId, NodeParameters> {
        Map::new(|o: OutputId| self.values@.contains_key(o.0), |o: OutputId| self.values@[o.0])
    }
}

impl OutputsCache {
    /// The nodes whose computation the pass has run, in the order in which it
    /// ran them.
    pub closed spec fn computed(&self) -> Seq<NodeId> {
        self.computed@
    }

    /// An empty cache, for a new pass.
    pub fn new() -> (cache: OutputsCache)
        ensures
            cache@ == Map::<OutputId, NodeParameters>::empty(),
            cache.computed() == Seq::<NodeId>::empty(),
    {
        let cache = OutputsCache { values: HashMap::new(), computed: Vec::new() };
        assert(cache@ =~= Map::<OutputId, NodeParameters>::empty());
        cache
    }

    /// Empties the cache, for the next pass.
    pub fn clear(&mut self)
        ensures
            final(self)@ == Map::<OutputId, NodeParameters>::empty(),
            final(self).computed() == Seq::<NodeId>::empty(),
    {
        self.values.clear();
        self.computed.clear();
        assert(self@ =~= Map::<OutputId, NodeParameters>::empty());
    }

    /// The value held for `output`, if the pass has computed it.
    pub fn get(&self, output: OutputId) -> (r: Option<NodeParameters>)
        ensures
            r == if self@.contains_key(output) {
                Some(self@[output])
            } else {
                None
            },
    {
        match self.values.get(&output.0) {
            Some(v) => Some(*v),
            None => None,
        }
    }

    /// Whether the pass has computed `output`.
    pub fn contains(&self, output: OutputId) -> (r: bool)
        ensures
            r == self@.contains_key(output),
    {
        self.values.contains_key(&output.0)
    }

    /// The number of outputs held.
    pub fn len(&self) -> (r: usize)
        ensures
            r == self@.dom().len(),
    {
        proof {
            self.lemma_view_len();
        }
        self.values.len()
    }

    /// Holds `value` for `output` from now on, unless a value is held for it
    /// already: that one stays. Says whether `value` was taken.
    pub fn insert(&mut self, output: OutputId, value: NodeParameters) -> (r: bool)
        ensures
            r == !old(self)@.contains_key(output),
            final(self)@ == if r {
                old(self)@.insert(output, value)
            } else {
                old(self)@
            },
            final(self).computed() == old(self).computed(),
    {
        if self.values.contains_key(&output.0) {
            false
        } else {
            self.values.insert(output.0, value);
            assert(self@ =~= old(self)@.insert(output, value));
            true
        }
    }

    /// The nodes whose computation the pass has run, in order.
    pub fn computed_nodes(&self) -> (r: &Vec<NodeId>)
        ensures
            r@ == self.computed(),
    {
        &self.computed
    }

    /// Notes that the computation of `node` has run.
    pub(crate) fn record(&mut self, node: NodeId)
        ensures
            final(self)@ == old(self)@,
            final(self).computed() == old(self).computed().push(node),
    {
        self.computed.push(node);
    }

    /// The cache holds as many outputs as its table has keys.
    proof fn lemma_view_len(&self)
        ensures
            self@.dom().finite(),
            self@.dom().len() == self.values@.dom().len(),
    {
        let keys = self.values@.dom();
        let outs = self@.dom();
        assert(keys.finite());
        assert(outs =~= keys.map(|k: usize| OutputId(k))) by {
            assert forall|o: OutputId| outs.contains(o) implies keys.map(
                |k: usize| OutputId(k),
            ).contains(o) by {
                assert(keys.contains(o.0));
                assert(OutputId(o.0) == o);
            }
        }
        vstd::set_lib::lemma_map_size(keys, outs, |k: usize| OutputId(k));
        assert(vstd::relations::injective(|k: usize| OutputId(k)));
    }
}

} // verus!
