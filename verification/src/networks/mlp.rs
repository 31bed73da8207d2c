//! A plain stack of fully connected layers.
use crate::networks::layers::LinearPlan;
use vstd::prelude::*;

verus! {

/// The sizes of the stack.
#[derive(Debug, Clone, Copy, PartialEq, Eq, Structural)]
pub struct MlpConfig {
    /// The length of an input row.
    pub input_dim: usize,
    /// The length of a hidden row.
    pub hidden_dim: usize,
    /// The length of an output row.
    pub output_dim: usize,
    /// The number of hidden layers.
    pub num_layers: usize,
}

impl MlpConfig {
    /// The length of what enters layer `i`.
    pub open spec fn width(self, i: int) -> usize {
        if i == 0 {
            self.input_dim
        } else if i <= self.num_layers {
            self.hidden_dim
        } else {
            self.output_dim
        }
    }

    /// Plans the layers: the hidden ones, then the output layer. What leaves a layer enters the
    /// next.
    pub fn init(&self) -> (layers: Vec<LinearPlan>)
        requires
            self.num_layers < usize::MAX,
        ensures
            layers.len() == self.num_layers + 1,
            forall|i: int|
                0 <= i < layers.len() ==> #[trigger] layers[i] == (LinearPlan {
                    input: self.width(i),
                    output: self.width(i + 1),
                }),
    {
        let mut layers: Vec<LinearPlan> = Vec::new();
        let mut in_dim: usize = self.input_dim;
        for i in 0..self.num_layers
            invariant
                in_dim == self.width(i as int),
                layers.len() == i,
                forall|j: int|
                    0 <= j < i ==> #[trigger] layers[j] == (LinearPlan {
                        input: self.width(j),
                        output: self.width(j + 1),
                    }),
        {
            layers.push(LinearPlan { input: in_dim, output: self.hidden_dim });
            in_dim = self.hidden_dim;
        }
        layers.push(LinearPlan { input: in_dim, output: self.output_dim });
        layers
    }

    /// Whether the output of layer `i` is activated: all but that of the last layer is.
    pub fn is_activated(&self, i: usize) -> (yes: bool)
        ensures
            yes == (i != self.num_layers),
    {
        i != self.num_layers
    }
}

/// A stack of layers of any kind.
pub struct Mlp<L> {
    /// The layers in order.
    pub layers: Vec<L>,
}

/// A row went through layer `i`, and was activated unless the layer is the last.
pub open spec fn passed<L, X, F: Fn(&L, X) -> X, A: Fn(X) -> X>(
    layers: Seq<L>,
    i: int,
    before: X,
    after: X,
    apply: F,
    activate: A,
) -> bool {
    exists|out: X|
        {
            &&& #[trigger] apply.ensures((&layers[i], before), out)
            &&& if i + 1 < layers.len() {
                activate.ensures((out,), after)
            } else {
                after == out
            }
        }
}

/// `rows` runs from `before` to `after`, one layer further each time.
pub open spec fn passed_in_turn<L, X, F: Fn(&L, X) -> X, A: Fn(X) -> X>(
    layers: Seq<L>,
    rows: Seq<X>,
    count: int,
    before: X,
    after: X,
    apply: F,
    activate: A,
) -> bool {
    &&& rows.len() == count + 1
    &&& rows[0] == before
    &&& rows.last() == after
    &&& forall|i: int|
        #![trigger layers[i]]
        0 <= i < count ==> passed(layers, i, rows[i], rows[i + 1], apply, activate)
}

impl<L> Mlp<L> {
    /// Passes `x` through all layers in order. What leaves a layer is activated, except for the
    /// last one.
    pub fn forward<X, F: Fn(&L, X) -> X, A: Fn(X) -> X>(&self, x: X, apply: F, activate: A) -> (out: X)
        requires
            forall|layer: &L, row: X| #[trigger] apply.requires((layer, row)),
            forall|row: X| #[trigger] activate.requires((row,)),
        ensures
            exists|rows: Seq<X>|
                #[trigger] passed_in_turn(
                    self.layers@,
                    rows,
                    self.layers.len() as int,
                    x,
                    out,
                    apply,
                    activate,
                ),
    {
        let ghost mut rows: Seq<X> = seq![x];
        let ghost start = x;
        let mut row = x;
        for i in 0..self.layers.len()
            invariant
                forall|layer: &L, r: X| #[trigger] apply.requires((layer, r)),
                forall|r: X| #[trigger] activate.requires((r,)),
                passed_in_turn(self.layers@, rows, i as int, start, row, apply, activate),
        {
            let ghost before = row;
            let passed_on = apply(&self.layers[i], row);
            let ghost out = passed_on;
            row = if i + 1 < self.layers.len() {
                activate(passed_on)
            } else {
                passed_on
            };
            proof {
                let longer = rows.push(row);
                assert(apply.ensures((&self.layers@[i as int], before), out));
                assert(passed(self.layers@, i as int, before, row, apply, activate));
                assert forall|k: int| #![trigger self.layers@[k]] 0 <= k < i + 1 implies passed(
                    self.layers@,
                    k,
                    longer[k],
                    longer[k + 1],
                    apply,
                    activate,
                ) by {
                    if k < i {
                        assert(longer[k] == rows[k] && longer[k + 1] == rows[k + 1]);
                    }
                }
                rows = longer;
            }
        }
        assert(passed_in_turn(
            self.layers@,
            rows,
            self.layers.len() as int,
            start,
            row,
            apply,
            activate,
        ));
        row
    }
}

/// A stack reads its input, has as many hidden widths as hidden layers, and gives its output.
pub proof fn law_stack_widths(config: MlpConfig, i: int)
    requires
        0 <= i <= config.num_layers + 1,
    ensures
        config.width(0) == config.input_dim,
        config.width(config.num_layers + 1) == config.output_dim,
        0 < i <= config.num_layers ==> config.width(i) == config.hidden_dim,
{
}

/// Every layer but the last is activated.
pub proof fn law_last_layer_is_plain<L, X, F: Fn(&L, X) -> X, A: Fn(X) -> X>(
    layers: Seq<L>,
    rows: Seq<X>,
    before: X,
    after: X,
    apply: F,
    activate: A,
)
    requires
        passed_in_turn(layers, rows, layers.len() as int, before, after, apply, activate),
        layers.len() > 0,
    ensures
        apply.ensures((&layers.last(), rows[layers.len() - 1]), after),
        layers.len() == 1 ==> apply.ensures((&layers[0], before), after),
        layers.len() > 1 ==> exists|out: X|
            {
                &&& #[trigger] apply.ensures((&layers[0], before), out)
                &&& activate.ensures((out,), rows[1])
            },
{
    assert(layers[layers.len() - 1] == layers.last());
    assert(layers[0] == layers[0]);
}

} // verus!
