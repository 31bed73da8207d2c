//! An actor that chooses among a few actions.
use crate::networks::layers::LinearPlan;
use vstd::prelude::*;

verus! {

/// The layers of the actor.
#[derive(Debug, Clone, Copy, PartialEq, Eq, Structural)]
pub struct DiscreteActor {
    /// Hidden layer.
    pub hidden: LinearPlan,
    /// From it to a score for each action.
    pub logits: LinearPlan,
    /// The number of actions.
    pub num_actions: usize,
}

impl DiscreteActor {
    /// Plans the layers.
    pub fn init(deter_size: usize, stoch_size: usize, num_actions: usize) -> (actor: Self)
        requires
            deter_size + stoch_size <= usize::MAX,
        ensures
            actor == (DiscreteActor {
                hidden: LinearPlan { input: (deter_size + stoch_size) as usize, output: 256 },
                logits: LinearPlan { input: 256, output: num_actions },
                num_actions,
            }),
    {
        DiscreteActor {
            hidden: LinearPlan { input: deter_size + stoch_size, output: 256 },
            logits: LinearPlan { input: 256, output: num_actions },
            num_actions,
        }
    }

    /// The action for a drawn index: the index itself, or the nearest one that exists.
    pub open spec fn nearest(self, index: int) -> int {
        if index < 0 {
            0
        } else if index >= self.num_actions {
            self.num_actions - 1
        } else {
            index
        }
    }

    /// The actions for the indices drawn for a batch, row by row.
    pub fn chosen(&self, drawn: &[i32]) -> (actions: Vec<usize>)
        requires
            0 < self.num_actions <= i32::MAX,
        ensures
            actions.len() == drawn.len(),
            forall|i: int|
                0 <= i < actions.len() ==> #[trigger] actions[i] == self.nearest(drawn[i] as int),
    {
        let mut actions: Vec<usize> = Vec::new();
        for i in 0..drawn.len()
            invariant
                0 < self.num_actions <= i32::MAX,
                actions.len() == i,
                forall|k: int|
                    0 <= k < i ==> #[trigger] actions[k] == self.nearest(drawn[k] as int),
        {
            let index: i32 = drawn[i];
            actions.push(
                if index < 0 {
                    0
                } else if index as usize >= self.num_actions {
                    self.num_actions - 1
                } else {
                    index as usize
                },
            );
        }
        actions
    }
}

/// A choice in range stands, and any other gives way to the nearest one.
pub proof fn law_choices_are_nearest(actor: DiscreteActor, index: int, other: int)
    requires
        0 < actor.num_actions,
        0 <= other < actor.num_actions,
    ensures
        0 <= actor.nearest(index) < actor.num_actions,
        0 <= index < actor.num_actions ==> actor.nearest(index) == index,
        vstd::math::abs(actor.nearest(index) - index) <= vstd::math::abs(other - index),
{
}

} // verus!
