# inferno

A small tensor, autograd and neural-network framework.

`src/` is the verified core: shapes and strides, broadcasting, the index maps
behind transposes, convolution patches, pooling windows, embedding lookups and
attention heads, the order in which gradients are propagated through a
computation graph, and the binary checkpoint format. Each function states what
it returns in its contract; the laws that span several functions (broadcasting
is symmetric, a transpose undone is the identity, a checkpoint reads back what
was written) are proof functions.

`app/` holds the `f32` tensors, their operations and gradients, the layers,
losses and optimisers, and checkpoint files on disk, built on that core.

`tests/` exercises the core on concrete values.
