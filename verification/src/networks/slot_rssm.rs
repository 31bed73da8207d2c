//! One recurrent state-space model shared by all slots. Rows are laid out batch by batch: slot `k`
//! of batch element `b` is row `b * K + k`.
use crate::networks::layers::LinearPlan;
use crate::networks::rssm;
use crate::networks::rssm::is_imagined;
use crate::networks::rssm::is_observed;
use crate::networks::rssm::is_pair;
use crate::networks::rssm::law_steps_share_transition;
use crate::networks::rssm::Latent;
use crate::networks::rssm::RSSMState;
use crate::networks::rssm::RSSM;
use vstd::math::max;
use vstd::prelude::*;

verus! {

/// The row of slot `slot` of batch element `b`.
pub open spec fn slot_row(b: int, slot: int, num_slots: int) -> int {
    b * num_slots + slot
}

/// Rows and pairs of batch element and slot correspond one to one.
pub proof fn law_rows_are_batch_major(b: int, slot: int, batch: int, num_slots: int)
    requires
        0 <= b < batch,
        0 <= slot < num_slots,
    ensures
        0 <= slot_row(b, slot, num_slots) < batch * num_slots,
        slot_row(b, slot, num_slots) / num_slots == b,
        slot_row(b, slot, num_slots) % num_slots == slot,
{
    let row = slot_row(b, slot, num_slots);
    vstd::arithmetic::div_mod::lemma_fundamental_div_mod_converse(row, num_slots, b, slot);
    assert(0 <= b * num_slots && b * num_slots + num_slots <= batch * num_slots)
        by (nonlinear_arith)
        requires
            0 <= b < batch,
            0 <= num_slots,
    ;
}

/// The batch element whose action each row gets: every slot of an element gets its action.
pub fn broadcast_action(batch: usize, num_slots: usize) -> (elements: Vec<usize>)
    requires
        batch * num_slots <= usize::MAX,
    ensures
        elements.len() == batch * num_slots,
        forall|b: int, slot: int|
            0 <= b < batch && 0 <= slot < num_slots ==> elements[#[trigger] slot_row(
                b,
                slot,
                num_slots as int,
            )] == b,
{
    let n: usize = batch * num_slots;
    let mut elements: Vec<usize> = Vec::new();
    for row in 0..n
        invariant
            n == batch * num_slots,
            elements.len() == row,
            num_slots > 0 ==> forall|r: int|
                0 <= r < row ==> #[trigger] elements[r] == r / num_slots as int,
    {
        assert(num_slots > 0) by (nonlinear_arith)
            requires
                0 <= row < batch * num_slots,
                0 <= num_slots,
                0 <= batch,
        ;
        elements.push(row / num_slots);
    }
    proof {
        assert forall|b: int, slot: int| 0 <= b < batch && 0 <= slot < num_slots implies elements[#[trigger] slot_row(
            b,
            slot,
            num_slots as int,
        )] == b by {
            law_rows_are_batch_major(b, slot, batch as int, num_slots as int);
        }
    }
    elements
}

/// The states of all slots.
#[derive(Debug, Clone, Copy, PartialEq, Eq, Structural)]
pub struct SlotStates {
    /// The rows, one for each slot of each batch element.
    pub rows: RSSMState,
    /// The number of batch elements.
    pub batch: usize,
    /// The number of slots.
    pub num_slots: usize,
}

impl SlotStates {
    /// There is a row for each slot of each batch element.
    pub open spec fn wf(self) -> bool {
        self.rows.batch == self.batch * self.num_slots
    }

    /// The shapes of the states of `batch` elements.
    pub fn init(batch: usize, num_slots: usize, rssm: &RSSM) -> (states: Self)
        requires
            batch * num_slots <= usize::MAX,
        ensures
            states.wf(),
            states.batch == batch,
            states.num_slots == num_slots,
            states.rows.deter == rssm.deter_size,
            states.rows.stoch == rssm.stoch_size,
    {
        SlotStates { rows: rssm.init_state(batch * num_slots), batch, num_slots }
    }

    /// The rows of one slot, batch element after batch element.
    pub fn get_slot(&self, slot: usize) -> (rows: Vec<usize>)
        requires
            self.wf(),
            slot < self.num_slots,
        ensures
            rows.len() == self.batch,
            forall|b: int|
                0 <= b < self.batch ==> #[trigger] rows[b] == slot_row(
                    b,
                    slot as int,
                    self.num_slots as int,
                ),
    {
        let mut rows: Vec<usize> = Vec::new();
        for b in 0..self.batch
            invariant
                self.wf(),
                slot < self.num_slots,
                rows.len() == b,
                forall|c: int|
                    0 <= c < b ==> #[trigger] rows[c] == slot_row(
                        c,
                        slot as int,
                        self.num_slots as int,
                    ),
        {
            proof {
                law_rows_are_batch_major(
                    b as int,
                    slot as int,
                    self.batch as int,
                    self.num_slots as int,
                );
                assert(0 <= b * self.num_slots <= b * self.num_slots + slot) by (nonlinear_arith)
                    requires
                        0 <= b,
                        0 <= self.num_slots,
                        0 <= slot,
                ;
            }
            rows.push(b * self.num_slots + slot);
        }
        rows
    }

    /// The shape of a state that holds all slots of a batch element in one row.
    pub fn joined(&self) -> (state: RSSMState)
        requires
            self.wf(),
            self.num_slots * self.rows.deter <= usize::MAX,
            self.num_slots * self.rows.stoch <= usize::MAX,
        ensures
            state == (RSSMState {
                batch: self.batch,
                deter: (self.num_slots * self.rows.deter) as usize,
                stoch: (self.num_slots * self.rows.stoch) as usize,
            }),
    {
        RSSMState {
            batch: self.batch,
            deter: self.num_slots * self.rows.deter,
            stoch: self.num_slots * self.rows.stoch,
        }
    }
}

/// An action is never handed to another batch element: each row of a slot gets the action of the
/// element that the row belongs to.
pub proof fn law_actions_reach_their_element(
    elements: Seq<usize>,
    rows: Seq<usize>,
    b: int,
    slot: int,
    batch: int,
    num_slots: int,
)
    requires
        0 <= b < batch,
        0 <= slot < num_slots,
        elements.len() == batch * num_slots,
        forall|c: int, k: int|
            0 <= c < batch && 0 <= k < num_slots ==> elements[#[trigger] slot_row(c, k, num_slots)]
                == c,
        rows.len() == batch,
        forall|c: int| 0 <= c < batch ==> #[trigger] rows[c] == slot_row(c, slot, num_slots),
    ensures
        elements[rows[b] as int] == b,
{
    assert(rows[b] == slot_row(b, slot, num_slots));
}

/// The layers of the model.
#[derive(Debug, Clone, Copy, PartialEq, Eq, Structural)]
pub struct SlotRSSM {
    /// The model that all slots share.
    pub rssm: RSSM,
    /// Queries of the interaction between slots.
    pub inter_q: LinearPlan,
    /// Keys of the interaction between slots.
    pub inter_k: LinearPlan,
    /// Values of the interaction between slots.
    pub inter_v: LinearPlan,
    /// One head of the ensemble.
    pub ensemble_head: LinearPlan,
    /// The number of heads.
    pub ensemble_size: usize,
    /// First layer of the position dynamics.
    pub pos_head1: LinearPlan,
    /// Second layer of the position dynamics.
    pub pos_head2: LinearPlan,
    /// The number of slots.
    pub num_slots: usize,
    /// The length of the interaction context; none if zero.
    pub ctx_dim: usize,
    /// The length of a stochastic part.
    pub stoch_size: usize,
}

impl SlotRSSM {
    /// The layers for given sizes. Without interaction, its layers are as small as can be.
    pub open spec fn of(
        deter: usize,
        stoch: usize,
        action_dim: usize,
        embed_dim: usize,
        num_slots: usize,
        ctx_dim: usize,
        ensemble_size: usize,
    ) -> Self {
        let inter = LinearPlan {
            input: if ctx_dim > 0 {
                (deter + stoch) as usize
            } else {
                1
            },
            output: max(ctx_dim as int, 1) as usize,
        };
        SlotRSSM {
            rssm: RSSM::of(deter, stoch, action_dim, embed_dim, ctx_dim),
            inter_q: inter,
            inter_k: inter,
            inter_v: inter,
            ensemble_head: LinearPlan { input: deter, output: (stoch * 2) as usize },
            ensemble_size,
            pos_head1: LinearPlan { input: (deter + 2) as usize, output: 64 },
            pos_head2: LinearPlan { input: 64, output: 2 },
            num_slots,
            ctx_dim,
            stoch_size: stoch,
        }
    }

    /// Plans the layers.
    pub fn init(
        deter: usize,
        stoch: usize,
        action_dim: usize,
        embed_dim: usize,
        num_slots: usize,
        ctx_dim: usize,
        ensemble_size: usize,
    ) -> (rssm: Self)
        requires
            RSSM::sizes_fit(
                deter as int,
                stoch as int,
                action_dim as int,
                embed_dim as int,
                ctx_dim as int,
            ),
            deter + stoch <= usize::MAX,
            deter + 2 <= usize::MAX,
        ensures
            rssm == Self::of(
                deter,
                stoch,
                action_dim,
                embed_dim,
                num_slots,
                ctx_dim,
                ensemble_size,
            ),
    {
        let inter = LinearPlan {
            input: if ctx_dim > 0 {
                deter + stoch
            } else {
                1
            },
            output: if ctx_dim > 1 {
                ctx_dim
            } else {
                1
            },
        };
        SlotRSSM {
            rssm: RSSM::init_with_ctx(deter, stoch, action_dim, embed_dim, ctx_dim),
            inter_q: inter,
            inter_k: inter,
            inter_v: inter,
            ensemble_head: LinearPlan { input: deter, output: stoch * 2 },
            ensemble_size,
            pos_head1: LinearPlan { input: deter + 2, output: 64 },
            pos_head2: LinearPlan { input: 64, output: 2 },
            num_slots,
            ctx_dim,
            stoch_size: stoch,
        }
    }

    /// The shapes of the states of `batch` elements.
    pub fn init_state(&self, batch: usize) -> (states: SlotStates)
        requires
            batch * self.num_slots <= usize::MAX,
        ensures
            states.wf(),
            states.batch == batch,
            states.num_slots == self.num_slots,
            states.rows.deter == self.rssm.deter_size,
            states.rows.stoch == self.rssm.stoch_size,
    {
        SlotStates::init(batch, self.num_slots, &self.rssm)
    }

    /// Whether slots learn of each other. If not, what they learn is zero.
    pub fn interacts(&self) -> (yes: bool)
        ensures
            yes == (self.ctx_dim > 0),
    {
        self.ctx_dim > 0
    }

    /// The shape of the interaction context for `states`: a row for each slot, whether slots
    /// interact or not.
    pub fn interaction_context(&self, states: &SlotStates) -> (context: (usize, usize))
        requires
            states.wf(),
        ensures
            context == (states.rows.batch, self.ctx_dim),
            context.0 == states.batch * states.num_slots,
    {
        (states.rows.batch, self.ctx_dim)
    }

    /// Whether the ensemble can disagree: it takes two heads.
    pub fn can_disagree(&self) -> (yes: bool)
        ensures
            yes == (self.ensemble_size >= 2),
    {
        self.ensemble_size >= 2
    }

    /// The length of a stochastic part.
    pub fn stoch_size(&self) -> (n: usize)
        ensures
            n == self.stoch_size,
    {
        self.stoch_size
    }
}

// ---- Places -------------------------------------------------------------------------------------
/// Where entry `c` of slot `slot` of batch element `b` lies among all entries of slots of length
/// `dim`.
pub open spec fn slot_entry(b: int, slot: int, c: int, num_slots: int, dim: int) -> int {
    slot_row(b, slot, num_slots) * dim + c
}

/// `entries` tells, row by row, where the place of each slot lies: in the last two entries of the
/// slot.
pub open spec fn are_place_entries(
    entries: Seq<usize>,
    batch: int,
    num_slots: int,
    dim: int,
) -> bool {
    &&& entries.len() == 2 * (batch * num_slots)
    &&& forall|b: int, slot: int|
        #![trigger slot_row(b, slot, num_slots)]
        0 <= b < batch && 0 <= slot < num_slots ==> {
            &&& entries[2 * slot_row(b, slot, num_slots)] == slot_entry(
                b,
                slot,
                dim - 2,
                num_slots,
                dim,
            )
            &&& entries[2 * slot_row(b, slot, num_slots) + 1] == slot_entry(
                b,
                slot,
                dim - 1,
                num_slots,
                dim,
            )
        }
}

/// Where the places of slots of length `dim` lie among all entries.
pub fn place_entries(batch: usize, num_slots: usize, dim: usize) -> (entries: Vec<usize>)
    requires
        2 <= dim,
        batch * num_slots * dim <= usize::MAX,
    ensures
        are_place_entries(entries@, batch as int, num_slots as int, dim as int),
{
    let ghost n = batch * num_slots;
    assert(0 <= n <= n * dim) by (nonlinear_arith)
        requires
            n == batch * num_slots,
            2 <= dim,
    ;
    let rows: usize = batch * num_slots;
    let mut entries: Vec<usize> = Vec::new();
    for row in 0..rows
        invariant
            2 <= dim,
            rows == n,
            n * dim <= usize::MAX,
            entries.len() == 2 * row,
            forall|r: int| 0 <= r < row ==> #[trigger] entries[2 * r] == r * dim + dim - 2,
            forall|r: int| 0 <= r < row ==> #[trigger] entries[2 * r + 1] == r * dim + dim - 1,
    {
        assert(0 <= row * dim && row * dim + dim <= n * dim) by (nonlinear_arith)
            requires
                0 <= row < n,
                0 <= dim,
        ;
        entries.push(row * dim + (dim - 2));
        entries.push(row * dim + (dim - 1));
    }
    proof {
        assert forall|b: int, slot: int|
            #![trigger slot_row(b, slot, num_slots as int)]
            0 <= b < batch && 0 <= slot < num_slots implies {
            &&& entries[2 * slot_row(b, slot, num_slots as int)] == slot_entry(
                b,
                slot,
                dim - 2,
                num_slots as int,
                dim as int,
            )
            &&& entries[2 * slot_row(b, slot, num_slots as int) + 1] == slot_entry(
                b,
                slot,
                dim - 1,
                num_slots as int,
                dim as int,
            )
        } by {
            law_rows_are_batch_major(b, slot, batch as int, num_slots as int);
            let r = slot_row(b, slot, num_slots as int);
            assert(entries[2 * r] == r * dim + dim - 2);
            assert(entries[2 * r + 1] == r * dim + dim - 1);
        }
    }
    entries
}

// ---- Steps of all slots -------------------------------------------------------------------------
/// The states of all slots, a row for each slot of each batch element: `H` holds deterministic
/// parts, `Z` stochastic parts and `P` places.
#[derive(Debug, Clone)]
pub struct SlotBatch<H, Z, P> {
    /// Both parts of the states.
    pub latent: Latent<H, Z>,
    /// Where the slots are.
    pub pos: P,
    /// The number of batch elements.
    pub batch: usize,
    /// The number of slots.
    pub num_slots: usize,
}

impl<H, Z, P> SlotBatch<H, Z, P> {
    /// Both have as many batch elements and slots.
    pub open spec fn same_shape(self, other: SlotBatch<H, Z, P>) -> bool {
        self.batch == other.batch && self.num_slots == other.num_slots
    }

    /// The places moved on from where they were before.
    pub open spec fn moved_from<M: Fn(&H, &P) -> P>(
        self,
        before: SlotBatch<H, Z, P>,
        predict_pos: M,
    ) -> bool {
        predict_pos.ensures((&*self.latent.deter, &before.pos), self.pos)
    }

    /// The places are what observed slots of length `dim` hold in their last two entries.
    pub open spec fn placed_by<O, K: Fn(&O, &Vec<usize>) -> P>(
        self,
        slots: O,
        dim: usize,
        pick: K,
    ) -> bool {
        exists|entries: Vec<usize>|
            {
                &&& #[trigger] pick.ensures((&slots, &entries), self.pos)
                &&& are_place_entries(
                    entries@,
                    self.batch as int,
                    self.num_slots as int,
                    dim as int,
                )
            }
    }

    /// The places of observed slots of length `dim` can be told.
    pub open spec fn can_place(self, dim: usize) -> bool {
        2 <= dim && self.batch * self.num_slots * dim <= usize::MAX
    }
}

/// A step of all slots in imagination: the prior makes the states, and places move on.
pub fn img_step_all<
    H,
    Z,
    P,
    A,
    D: Fn(&SlotBatch<H, Z, P>, A) -> H,
    Q: Fn(&H) -> Z,
    M: Fn(&H, &P) -> P,
>(states: &SlotBatch<H, Z, P>, action: A, get_deter: D, prior: Q, predict_pos: M) -> (next:
    SlotBatch<H, Z, P>)
    requires
        get_deter.requires((states, action)),
        forall|h: &H| #[trigger] prior.requires((h,)),
        forall|h: &H, p: &P| #[trigger] predict_pos.requires((h, p)),
    ensures
        is_imagined(*states, action, get_deter, prior, next.latent),
        next.moved_from(*states, predict_pos),
        next.same_shape(*states),
{
    let latent = rssm::img_step(states, action, get_deter, prior);
    let pos = predict_pos(&*latent.deter, &states.pos);
    SlotBatch { latent, pos, batch: states.batch, num_slots: states.num_slots }
}

/// A step of all slots with an observation: the posterior makes the states, and `pick` takes the
/// places out of the observed slots, which have length `dim`.
pub fn obs_step_all<
    H,
    Z,
    P,
    A,
    O,
    D: Fn(&SlotBatch<H, Z, P>, A) -> H,
    Q: Fn(&H, &O) -> Z,
    K: Fn(&O, &Vec<usize>) -> P,
>(
    states: &SlotBatch<H, Z, P>,
    slots: &O,
    dim: usize,
    action: A,
    get_deter: D,
    post: Q,
    pick: K,
) -> (next: SlotBatch<H, Z, P>)
    requires
        states.can_place(dim),
        get_deter.requires((states, action)),
        forall|h: &H| #[trigger] post.requires((h, slots)),
        forall|entries: &Vec<usize>| #[trigger] pick.requires((slots, entries)),
    ensures
        is_observed(*states, *slots, action, get_deter, post, next.latent),
        next.placed_by(*slots, dim, pick),
        next.same_shape(*states),
{
    let latent = rssm::obs_step(states, slots, action, get_deter, post);
    let entries = place_entries(states.batch, states.num_slots, dim);
    let pos = pick(slots, &entries);
    let next = SlotBatch { latent, pos, batch: states.batch, num_slots: states.num_slots };
    assert(pick.ensures((slots, &entries), next.pos));
    next
}

/// The prior and the posterior of all slots. Both hold the same deterministic part; the places of
/// the one move on, those of the other are seen.
pub fn prior_posterior_step<
    H,
    Z,
    P,
    A,
    O,
    D: Fn(&SlotBatch<H, Z, P>, A) -> H,
    Q: Fn(&H) -> Z,
    M: Fn(&H, &P) -> P,
    Q2: Fn(&H, &O) -> Z,
    K: Fn(&O, &Vec<usize>) -> P,
>(
    states: &SlotBatch<H, Z, P>,
    slots: &O,
    dim: usize,
    action: A,
    get_deter: D,
    prior: Q,
    predict_pos: M,
    post: Q2,
    pick: K,
) -> (both: (SlotBatch<H, Z, P>, SlotBatch<H, Z, P>))
    requires
        states.can_place(dim),
        get_deter.requires((states, action)),
        forall|h: &H| #[trigger] prior.requires((h,)),
        forall|h: &H, p: &P| #[trigger] predict_pos.requires((h, p)),
        forall|h: &H| #[trigger] post.requires((h, slots)),
        forall|entries: &Vec<usize>| #[trigger] pick.requires((slots, entries)),
    ensures
        both.0.latent.deter == both.1.latent.deter,
        is_pair(
            *states,
            *slots,
            action,
            get_deter,
            prior,
            post,
            (both.0.latent, both.1.latent),
        ),
        both.0.moved_from(*states, predict_pos),
        both.1.placed_by(*slots, dim, pick),
        both.0.same_shape(*states),
        both.1.same_shape(*states),
{
    let (guess, seen) = rssm::prior_posterior_step(states, slots, action, get_deter, prior, post);
    let moved = predict_pos(&*guess.deter, &states.pos);
    let entries = place_entries(states.batch, states.num_slots, dim);
    let placed = pick(slots, &entries);
    let first = SlotBatch {
        latent: guess,
        pos: moved,
        batch: states.batch,
        num_slots: states.num_slots,
    };
    let second = SlotBatch {
        latent: seen,
        pos: placed,
        batch: states.batch,
        num_slots: states.num_slots,
    };
    assert(pick.ensures((slots, &entries), second.pos));
    (first, second)
}

/// All steps of slots from one state and action hold the same deterministic part, whether they are
/// imagined, observed or both, as long as the transition is a function of the states and the
/// action.
pub proof fn law_slots_share_transition<
    H,
    Z,
    P,
    A,
    O,
    D: Fn(&SlotBatch<H, Z, P>, A) -> H,
    Q: Fn(&H) -> Z,
    Q2: Fn(&H, &O) -> Z,
>(
    states: SlotBatch<H, Z, P>,
    slots: O,
    action: A,
    get_deter: D,
    prior: Q,
    post: Q2,
    imagined: SlotBatch<H, Z, P>,
    observed: SlotBatch<H, Z, P>,
    both: (SlotBatch<H, Z, P>, SlotBatch<H, Z, P>),
)
    requires
        is_imagined(states, action, get_deter, prior, imagined.latent),
        is_observed(states, slots, action, get_deter, post, observed.latent),
        is_pair(
            states,
            slots,
            action,
            get_deter,
            prior,
            post,
            (both.0.latent, both.1.latent),
        ),
        forall|g: H, h: H|
            #[trigger] get_deter.ensures((&states, action), g) && #[trigger] get_deter.ensures(
                (&states, action),
                h,
            ) ==> g == h,
    ensures
        both.0.latent.deter == both.1.latent.deter,
        both.0.latent.deter == imagined.latent.deter,
        both.0.latent.deter == observed.latent.deter,
{
    law_steps_share_transition(
        states,
        slots,
        action,
        get_deter,
        prior,
        post,
        imagined.latent,
        observed.latent,
        (both.0.latent, both.1.latent),
    );
}

/// Queries, keys and values of the interaction have the width of the context, where there is one,
/// and read whole slot states; heads predict what the prior predicts, and the place of a slot is
/// predicted from its state and its last place.
pub proof fn law_slot_dynamics_fit(
    deter: usize,
    stoch: usize,
    action: usize,
    embed: usize,
    slots: usize,
    ctx: usize,
    heads: usize,
)
    requires
        RSSM::sizes_fit(deter as int, stoch as int, action as int, embed as int, ctx as int),
        deter + stoch <= usize::MAX,
        deter + 2 <= usize::MAX,
    ensures
        ({
            let m = SlotRSSM::of(deter, stoch, action, embed, slots, ctx, heads);
            &&& m.inter_q == m.inter_k && m.inter_k == m.inter_v
            &&& ctx > 0 ==> m.inter_q.input == m.rssm.deter_size + m.rssm.stoch_size
                && m.inter_q.output == m.rssm.ctx_size
            &&& ctx == 0 ==> m.inter_q.input == 1 && m.inter_q.output == 1
            &&& m.ensemble_head.input == m.rssm.prior_h.input
            &&& m.ensemble_head.output == m.rssm.prior.output
            &&& m.pos_head1.input == m.rssm.deter_size + m.pos_head2.output
            &&& m.pos_head1.output == m.pos_head2.input && m.pos_head2.input == 64
            &&& m.pos_head2.output == 2
            &&& m.rssm.deter_size == deter && m.rssm.stoch_size == stoch
            &&& m.rssm.norm_obs == embed && m.rssm.ctx_size == ctx
            &&& m.rssm.gru.input == stoch + action + ctx
            &&& m.num_slots == slots && m.ctx_dim == ctx && m.ensemble_size == heads
            &&& m.stoch_size == stoch
        }),
{
}

/// The place of a slot is in its last two entries, and slots lie one after the other.
pub proof fn law_places_are_last_entries(
    entries: Seq<usize>,
    batch: int,
    num_slots: int,
    dim: int,
    b: int,
    slot: int,
)
    requires
        are_place_entries(entries, batch, num_slots, dim),
        0 <= b < batch,
        0 <= slot < num_slots,
    ensures
        ({
            let row = b * num_slots + slot;
            &&& entries[2 * row] == (row + 1) * dim - 2
            &&& entries[2 * row + 1] == (row + 1) * dim - 1
        }),
{
    let row = slot_row(b, slot, num_slots);
    assert((row + 1) * dim == row * dim + dim) by (nonlinear_arith);
}

} // verus!
