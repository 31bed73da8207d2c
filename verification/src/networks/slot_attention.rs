//! Slot attention: features of an image bind to a fixed number of slots.
use crate::networks::layers::coord_grid;
use crate::networks::layers::place_at;
use crate::networks::layers::GridCoord;
use crate::networks::layers::Images;
use crate::networks::layers::LinearPlan;
use crate::networks::mlp::MlpConfig;
use vstd::prelude::*;

verus! {

/// The sizes of a slot attention module.
#[derive(Debug, Clone, Copy, PartialEq, Eq, Structural)]
pub struct SlotAttentionConfig {
    /// The number of slots.
    pub num_slots: usize,
    /// The length of a slot vector.
    pub slot_dim: usize,
    /// How often the slots are refined.
    pub num_iterations: usize,
    /// The number of feature channels at each position.
    pub feature_dim: usize,
}

impl Default for SlotAttentionConfig {
    fn default() -> (config: Self)
        ensures
            config == (SlotAttentionConfig {
                num_slots: 4,
                slot_dim: 64,
                num_iterations: 3,
                feature_dim: 64,
            }),
    {
        SlotAttentionConfig { num_slots: 4, slot_dim: 64, num_iterations: 3, feature_dim: 64 }
    }
}

/// The layers of a slot attention module.
#[derive(Debug, Clone, Copy, PartialEq, Eq, Structural)]
pub struct SlotAttention {
    /// From features to keys.
    pub proj_k: LinearPlan,
    /// From features to values.
    pub proj_v: LinearPlan,
    /// From slots to queries.
    pub proj_q: LinearPlan,
    /// The recurrent unit that refines slots.
    pub gru: LinearPlan,
    /// The network after it, whose output is added to the slots.
    pub mlp: MlpConfig,
    /// From a constant to all slots at once.
    pub slot_init: LinearPlan,
    /// From a place and its complement to features.
    pub pos_proj: LinearPlan,
    /// The sizes.
    pub config: SlotAttentionConfig,
}

impl SlotAttention {
    /// The layers for given sizes, with `mlp_layers` hidden layers after the recurrent unit.
    pub open spec fn of(config: SlotAttentionConfig, mlp_layers: usize) -> Self {
        let d = config.slot_dim;
        let f = config.feature_dim;
        SlotAttention {
            proj_k: LinearPlan { input: f, output: d },
            proj_v: LinearPlan { input: f, output: d },
            proj_q: LinearPlan { input: d, output: d },
            gru: LinearPlan { input: d, output: d },
            mlp: MlpConfig { input_dim: d, hidden_dim: d, output_dim: d, num_layers: mlp_layers },
            slot_init: LinearPlan { input: 1, output: (d * config.num_slots) as usize },
            pos_proj: LinearPlan { input: 4, output: f },
            config,
        }
    }

    /// Plans the layers for given sizes, with one hidden layer after the recurrent unit.
    pub fn init(config: &SlotAttentionConfig) -> (attention: Self)
        requires
            config.slot_dim * config.num_slots <= usize::MAX,
        ensures
            attention == Self::of(*config, 1),
    {
        Self::init_with_layers(config, 1)
    }

    /// Plans the layers for given sizes, with `mlp_layers` hidden layers after the recurrent unit.
    pub fn init_with_layers(config: &SlotAttentionConfig, mlp_layers: usize) -> (attention: Self)
        requires
            config.slot_dim * config.num_slots <= usize::MAX,
        ensures
            attention == Self::of(*config, mlp_layers),
    {
        let d: usize = config.slot_dim;
        let f: usize = config.feature_dim;
        SlotAttention {
            proj_k: LinearPlan { input: f, output: d },
            proj_v: LinearPlan { input: f, output: d },
            proj_q: LinearPlan { input: d, output: d },
            gru: LinearPlan { input: d, output: d },
            mlp: MlpConfig { input_dim: d, hidden_dim: d, output_dim: d, num_layers: mlp_layers },
            slot_init: LinearPlan { input: 1, output: d * config.num_slots },
            pos_proj: LinearPlan { input: 4, output: f },
            config: *config,
        }
    }

    /// The places of the features, row after row: column first, then row.
    pub fn position_grid(&self, h: usize, w: usize) -> (grid: Vec<(GridCoord, GridCoord)>)
        requires
            h * w <= usize::MAX,
        ensures
            grid.len() == h * w,
            forall|p: int|
                0 <= p < grid.len() ==> #[trigger] grid[p] == place_at(h as int, w as int, p),
    {
        coord_grid(h, w)
    }

    /// The shape of the slots for feature maps: batch, slots, length.
    pub fn forward(&self, features: Images) -> (slots: (usize, usize, usize))
        requires
            features.1 == self.config.feature_dim,
        ensures
            slots == (features.0, self.config.num_slots, self.config.slot_dim),
    {
        (features.0, self.config.num_slots, self.config.slot_dim)
    }

    /// `course` starts at `slots`; each step led from one state of the slots to the next and left
    /// what `traces` holds for it.
    pub open spec fn refined<S, A, F: Fn(&S) -> (S, A)>(
        slots: S,
        course: Seq<S>,
        traces: Seq<A>,
        step: F,
    ) -> bool {
        &&& course.len() == traces.len() + 1
        &&& course[0] == slots
        &&& forall|i: int|
            #![trigger traces[i]]
            0 <= i < traces.len() ==> step.ensures((&course[i],), (course[i + 1], traces[i]))
    }

    /// Refines slots as often as the sizes say. Gives the slots and the attention of the last
    /// step, or none if there was no step.
    pub fn refine<S, A, F: Fn(&S) -> (S, A)>(&self, slots: S, step: F) -> (done: (S, Option<A>))
        requires
            forall|s: &S| #[trigger] step.requires((s,)),
        ensures
            exists|course: Seq<S>, traces: Seq<A>|
                {
                    &&& #[trigger] Self::refined(slots, course, traces, step)
                    &&& traces.len() == self.config.num_iterations
                    &&& course.last() == done.0
                    &&& done.1 == (if traces.len() > 0 {
                        Some(traces.last())
                    } else {
                        None
                    })
                },
    {
        let ghost start = slots;
        let ghost mut course: Seq<S> = seq![slots];
        let ghost mut traces: Seq<A> = Seq::empty();
        let mut current = slots;
        let mut last: Option<A> = None;
        for i in 0..self.config.num_iterations
            invariant
                forall|s: &S| #[trigger] step.requires((s,)),
                Self::refined(start, course, traces, step),
                traces.len() == i,
                course.last() == current,
                last == (if traces.len() > 0 {
                    Some(traces.last())
                } else {
                    None
                }),
        {
            let ghost earlier = traces;
            let ghost shorter = course;
            let (next, trace) = step(&current);
            proof {
                course = course.push(next);
                traces = traces.push(trace);
                assert forall|k: int|
                    #![trigger traces[k]]
                    0 <= k < traces.len() implies step.ensures(
                    (&course[k],),
                    (course[k + 1], traces[k]),
                ) by {
                    if k < i {
                        assert(traces[k] == earlier[k]);
                        assert(course[k] == shorter[k] && course[k + 1] == shorter[k + 1]);
                    }
                }
            }
            current = next;
            last = Some(trace);
        }
        assert(Self::refined(start, course, traces, step));
        (current, last)
    }

    /// The layers after the recurrent unit: the hidden ones, then the output layer. All of them
    /// keep the length of a slot.
    pub fn refinement_layers(&self) -> (layers: Vec<LinearPlan>)
        requires
            self.mlp.num_layers < usize::MAX,
            self.mlp == Self::of(self.config, self.mlp.num_layers).mlp,
        ensures
            layers.len() == self.mlp.num_layers + 1,
            forall|i: int|
                0 <= i < layers.len() ==> #[trigger] layers[i] == (LinearPlan {
                    input: self.config.slot_dim,
                    output: self.config.slot_dim,
                }),
    {
        self.mlp.init()
    }

    /// Where a slot holds its place: the last two of its entries, as a start and a count. The
    /// entries before them come from refinement.
    pub fn centroid_range(&self) -> (range: (usize, usize))
        requires
            2 <= self.config.slot_dim,
        ensures
            range.0 + range.1 == self.config.slot_dim,
            range.1 == 2,
    {
        (self.config.slot_dim - 2, 2)
    }

    /// The number of slots.
    pub fn num_slots(&self) -> (n: usize)
        ensures
            n == self.config.num_slots,
    {
        self.config.num_slots
    }

    /// The length of a slot.
    pub fn slot_dim(&self) -> (n: usize)
        ensures
            n == self.config.slot_dim,
    {
        self.config.slot_dim
    }
}

/// Keys, values, queries and slots have one width, features and places another, and the first slots
/// are made all at once.
pub proof fn law_slot_attention_fits(config: SlotAttentionConfig, mlp_layers: usize)
    requires
        config.slot_dim * config.num_slots <= usize::MAX,
    ensures
        ({
            let a = SlotAttention::of(config, mlp_layers);
            &&& a.proj_k == a.proj_v
            &&& a.proj_k.input == config.feature_dim && a.proj_k.output == config.slot_dim
            &&& a.proj_q.input == config.slot_dim && a.proj_q.output == a.proj_k.output
            &&& a.gru.input == a.proj_v.output && a.gru.output == config.slot_dim
            &&& a.mlp.input_dim == a.gru.output && a.mlp.output_dim == a.gru.output
            &&& a.mlp.hidden_dim == config.slot_dim && a.mlp.num_layers == mlp_layers
            &&& a.slot_init.input == 1
            &&& a.slot_init.output == config.num_slots * config.slot_dim
            &&& a.pos_proj.input == 4 && a.pos_proj.output == config.feature_dim
            &&& a.config == config
        }),
{
    assert(config.slot_dim * config.num_slots == config.num_slots * config.slot_dim)
        by (nonlinear_arith);
}

/// Slots are refined in turn, each time from what the last refinement made of them.
pub proof fn law_slots_are_refined_in_turn<S, A, F: Fn(&S) -> (S, A)>(
    slots: S,
    course: Seq<S>,
    traces: Seq<A>,
    step: F,
)
    requires
        SlotAttention::refined(slots, course, traces, step),
    ensures
        traces.len() == 0 ==> course.last() == slots,
        traces.len() > 0 ==> step.ensures((&slots,), (course[1], traces[0]))
            && SlotAttention::refined(course[1], course.drop_first(), traces.drop_first(), step),
{
    if traces.len() > 0 {
        assert(traces[0] == traces[0]);
        let rest = traces.drop_first();
        let further = course.drop_first();
        assert forall|i: int|
            #![trigger rest[i]]
            0 <= i < rest.len() implies step.ensures((&further[i],), (further[i + 1], rest[i])) by {
            assert(rest[i] == traces[i + 1]);
        }
    }
}

} // verus!
