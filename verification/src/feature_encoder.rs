//! The layer plan of the convolutional feature encoder: under which name each
//! layer finds its weights, and how many channels it reads.

use vstd::prelude::*;

use crate::config::LayerConfig;

verus! {

/// The decimal digits.
pub open spec fn decimal_digits() -> Seq<char> {
    seq!['0', '1', '2', '3', '4', '5', '6', '7', '8', '9']
}

/// `n` written in decimal, without leading zeros.
pub open spec fn decimal(n: nat) -> Seq<char>
    decreases n,
{
    if n < 10 {
        seq![decimal_digits()[n as int]]
    } else {
        decimal(n / 10).push(decimal_digits()[(n % 10) as int])
    }
}

/// The weight name of layer `i` of the encoder whose weights are under `prefix`.
pub open spec fn layer_name(prefix: Seq<char>, i: nat) -> Seq<char> {
    prefix + seq!['.'] + decimal(i)
}

/// The number of channels that layer `i` reads: one, the audio, for the first
/// layer, and what the layer before it writes for the others.
pub open spec fn layer_input_len(layers: Seq<LayerConfig>, i: int) -> usize {
    if i == 0 {
        1
    } else {
        layers[i - 1].output_len
    }
}

/// Appends `n` in decimal to `s`.
fn push_decimal(s: &mut String, n: usize)
    ensures
        final(s)@ == old(s)@ + decimal(n as nat),
    decreases n,
{
    let digits = ['0', '1', '2', '3', '4', '5', '6', '7', '8', '9'];
    assert(digits@ =~= decimal_digits());
    if n < 10 {
        s.push(digits[n]);
    } else {
        push_decimal(s, n / 10);
        s.push(digits[n % 10]);
    }
}

/// The plan of a feature encoder with `layers` whose weights are under
/// `prefix`: for each layer in order, the name of its weights (`prefix.i`),
/// the number of channels it reads, and its configuration.
pub fn feature_encoder_plan(prefix: &str, layers: &[LayerConfig]) -> (r: Vec<(String, usize, LayerConfig)>)
    ensures
        r@.len() == layers@.len(),
        forall|i: int|
            0 <= i < r@.len() ==> {
                &&& (#[trigger] r@[i]).0@ == layer_name(prefix@, i as nat)
                &&& r@[i].1 == layer_input_len(layers@, i)
                &&& r@[i].2 == layers@[i]
            },
{
    let mut plan: Vec<(String, usize, LayerConfig)> = Vec::new();
    let mut input_len: usize = 1;
    let mut i: usize = 0;
    while i < layers.len()
        invariant
            i <= layers@.len(),
            plan@.len() == i,
            input_len == layer_input_len(layers@, i as int),
            forall|j: int|
                0 <= j < i ==> {
                    &&& (#[trigger] plan@[j]).0@ == layer_name(prefix@, j as nat)
                    &&& plan@[j].1 == layer_input_len(layers@, j)
                    &&& plan@[j].2 == layers@[j]
                },
        decreases layers@.len() - i,
    {
        let mut name = prefix.to_string();
        name.push('.');
        push_decimal(&mut name, i);
        let config = layers[i];
        plan.push((name, input_len, config));
        input_len = config.output_len;
        i = i + 1;
    }
    plan
}

} // verus!
