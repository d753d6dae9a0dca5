//! Plain configuration values of a `wav2vec 2.0` model.

use vstd::prelude::*;

verus! {

/// One convolutional layer of the feature encoder.
#[derive(Clone, Copy, Debug)]
pub struct LayerConfig {
    pub output_len: usize,
    pub kernel_size: usize,
    pub stride: usize,
}

/// A feature encoder layer with `output_len` channels, kernel size
/// `kernel_size` and stride `stride`.
pub fn layer(output_len: usize, kernel_size: usize, stride: usize) -> (r: LayerConfig)
    ensures
        r.output_len == output_len,
        r.kernel_size == kernel_size,
        r.stride == stride,
{
    LayerConfig { output_len, kernel_size, stride }
}

/// Where the transformer layers normalize.
#[derive(Clone, Copy, Debug, PartialEq, Eq, Structural)]
pub enum AttentionNormalizerMode {
    /// Layer norm is performed on input before the attention layer.
    Before,
    /// Layer norm is performed after the attention layer and the residual is added.
    After,
}

} // verus!
