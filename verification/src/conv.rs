//! Geometry of 2-D convolution: output sizes, and the `im2col` index map that
//! lays the input patches out as the columns of a matrix.
use vstd::prelude::*;

use crate::index::{
    flat2, flat3, flat4, lemma_flat3_bound, lemma_flat4_bound, lemma_flat4_parts, lemma_join2,
    lemma_join3, lemma_split2, lemma_split3,
};

verus! {

/// Size of a convolution output along one axis.
pub open spec fn conv_out_dim(input: int, kernel: int, stride: int, padding: int) -> int {
    (input + 2 * padding - kernel) / stride + 1
}

/// The sizes of a 2-D convolution of an `[batch, in_channels, in_height, in_width]`
/// input with an `[out_channels, in_channels, kernel_height, kernel_width]` weight.
pub struct Conv2dGeometry {
    pub batch: usize,
    pub in_channels: usize,
    pub in_height: usize,
    pub in_width: usize,
    pub out_channels: usize,
    pub kernel_height: usize,
    pub kernel_width: usize,
    pub stride: usize,
    pub padding: usize,
    pub out_height: usize,
    pub out_width: usize,
}

impl Conv2dGeometry {
    pub open spec fn spec_patch_size(&self) -> int {
        self.in_channels * self.kernel_height * self.kernel_width
    }

    pub open spec fn spec_output_positions(&self) -> int {
        self.batch * self.out_height * self.out_width
    }

    pub open spec fn spec_input_len(&self) -> int {
        self.batch * self.in_channels * self.in_height * self.in_width
    }

    /// The sizes are consistent, and every size that the convolution allocates
    /// fits in a `usize`.
    pub open spec fn wf(&self) -> bool {
        &&& self.stride > 0
        &&& self.in_height + 2 * self.padding <= usize::MAX
        &&& self.in_width + 2 * self.padding <= usize::MAX
        &&& self.kernel_height <= self.in_height + 2 * self.padding
        &&& self.kernel_width <= self.in_width + 2 * self.padding
        &&& self.out_height == conv_out_dim(
            self.in_height as int,
            self.kernel_height as int,
            self.stride as int,
            self.padding as int,
        )
        &&& self.out_width == conv_out_dim(
            self.in_width as int,
            self.kernel_width as int,
            self.stride as int,
            self.padding as int,
        )
        &&& self.spec_input_len() <= usize::MAX
        &&& self.spec_patch_size() <= usize::MAX
        &&& self.spec_output_positions() <= usize::MAX
        &&& self.spec_patch_size() * self.spec_output_positions() <= usize::MAX
        &&& self.out_channels * self.spec_output_positions() <= usize::MAX
    }

    /// The input element that a patch entry reads: channel `c`, kernel offset
    /// `(kr, kc)`, at output position `(b, orow, ocol)`; `None` in the padding.
    pub open spec fn patch_source(
        &self,
        c: int,
        kr: int,
        kc: int,
        b: int,
        orow: int,
        ocol: int,
    ) -> Option<usize> {
        let prow = orow * self.stride + kr;
        let pcol = ocol * self.stride + kc;
        if self.padding <= prow < self.padding + self.in_height && self.padding <= pcol
            < self.padding + self.in_width {
            Some(
                flat4(
                    b,
                    c,
                    prow - self.padding,
                    pcol - self.padding,
                    self.in_channels as int,
                    self.in_height as int,
                    self.in_width as int,
                ) as usize,
            )
        } else {
            None
        }
    }

    /// The patch entry at flat slot `slot` of the `[patch_size, output_positions]`
    /// column matrix.
    pub open spec fn column_source(&self, slot: int) -> Option<usize> {
        let p = self.spec_output_positions();
        let row = slot / p;
        let pos = slot % p;
        self.patch_source(
            (row / self.kernel_width as int) / self.kernel_height as int,
            (row / self.kernel_width as int) % self.kernel_height as int,
            row % self.kernel_width as int,
            (pos / self.out_width as int) / self.out_height as int,
            (pos / self.out_width as int) % self.out_height as int,
            pos % self.out_width as int,
        )
    }

    /// Whether a convolution of an input of shape `input_shape` with a weight of
    /// shape `weight_shape` is defined: both shapes are 4-D, their channels agree,
    /// the stride is positive, the kernel fits in the padded input, and every size
    /// fits in a `usize`.
    pub fn fits(input_shape: &[usize], weight_shape: &[usize], stride: usize, padding: usize) -> (r: bool)
        ensures
            r == conv_shapes_valid(input_shape@, weight_shape@, stride, padding),
    {
        if input_shape.len() != 4 || weight_shape.len() != 4 {
            return false;
        }
        let batch = input_shape[0];
        let in_channels = input_shape[1];
        let in_height = input_shape[2];
        let in_width = input_shape[3];
        let out_channels = weight_shape[0];
        let kernel_height = weight_shape[2];
        let kernel_width = weight_shape[3];
        if in_channels != weight_shape[1] {
            return false;
        }
        let ghost spec_g = conv_geometry_of(input_shape@, weight_shape@, stride, padding);
        if stride == 0 {
            return false;
        }
        let two_pad = match padding.checked_mul(2) {
            Some(v) => v,
            None => {
                return false;
            },
        };
        let padded_height = match in_height.checked_add(two_pad) {
            Some(v) => v,
            None => {
                return false;
            },
        };
        let padded_width = match in_width.checked_add(two_pad) {
            Some(v) => v,
            None => {
                return false;
            },
        };
        if kernel_height > padded_height || kernel_width > padded_width {
            return false;
        }
        let out_height = match ((padded_height - kernel_height) / stride).checked_add(1) {
            Some(v) => v,
            None => {
                return false;
            },
        };
        let out_width = match ((padded_width - kernel_width) / stride).checked_add(1) {
            Some(v) => v,
            None => {
                return false;
            },
        };
        assert(spec_g.out_height == out_height && spec_g.out_width == out_width);
        if !product_fits4(batch, in_channels, in_height, in_width) {
            return false;
        }
        if !product_fits4(in_channels, kernel_height, kernel_width, 1) {
            return false;
        }
        if !product_fits4(batch, out_height, out_width, 1) {
            return false;
        }
        let patch = mul3(in_channels, kernel_height, kernel_width);
        let positions = mul3(batch, out_height, out_width);
        patch.checked_mul(positions).is_some() && out_channels.checked_mul(positions).is_some()
    }

    /// The geometry of a convolution of an input of shape `input_shape` with a
    /// weight of shape `weight_shape`.
    pub fn new(input_shape: &[usize], weight_shape: &[usize], stride: usize, padding: usize) -> (g: Conv2dGeometry)
        requires
            conv_shapes_valid(input_shape@, weight_shape@, stride, padding),
        ensures
            g == conv_geometry_of(input_shape@, weight_shape@, stride, padding),
    {
        let batch = input_shape[0];
        let in_channels = input_shape[1];
        let in_height = input_shape[2];
        let in_width = input_shape[3];
        let out_channels = weight_shape[0];
        let kernel_height = weight_shape[2];
        let kernel_width = weight_shape[3];
        let out_height = (in_height + 2 * padding - kernel_height) / stride + 1;
        let out_width = (in_width + 2 * padding - kernel_width) / stride + 1;
        Conv2dGeometry {
            batch,
            in_channels,
            in_height,
            in_width,
            out_channels,
            kernel_height,
            kernel_width,
            stride,
            padding,
            out_height,
            out_width,
        }
    }

    pub fn patch_size(&self) -> (n: usize)
        requires
            self.wf(),
        ensures
            n == self.spec_patch_size(),
    {
        mul3(self.in_channels, self.kernel_height, self.kernel_width)
    }

    pub fn output_positions(&self) -> (n: usize)
        requires
            self.wf(),
        ensures
            n == self.spec_output_positions(),
    {
        mul3(self.batch, self.out_height, self.out_width)
    }

    pub fn input_len(&self) -> (n: usize)
        requires
            self.wf(),
        ensures
            n == self.spec_input_len(),
    {
        mul4(self.batch, self.in_channels, self.in_height, self.in_width)
    }

    /// The output shape `[batch, out_channels, out_height, out_width]`.
    pub fn output_shape(&self) -> (s: Vec<usize>)
        ensures
            s@ == seq![self.batch, self.out_channels, self.out_height, self.out_width],
    {
        let mut s: Vec<usize> = Vec::new();
        s.push(self.batch);
        s.push(self.out_channels);
        s.push(self.out_height);
        s.push(self.out_width);
        assert(s@ =~= seq![self.batch, self.out_channels, self.out_height, self.out_width]);
        s
    }

    /// For each entry of the `[patch_size, output_positions]` column matrix, the
    /// index of the input element it copies, or `None` where the patch lies in
    /// the zero padding.
    pub fn im2col_map(&self) -> (map: Vec<Option<usize>>)
        requires
            self.wf(),
        ensures
            map.len() == self.spec_patch_size() * self.spec_output_positions(),
            forall|c: int, kr: int, kc: int, b: int, orow: int, ocol: int|
                0 <= c < self.in_channels && 0 <= kr < self.kernel_height && 0 <= kc
                    < self.kernel_width && 0 <= b < self.batch && 0 <= orow < self.out_height && 0
                    <= ocol < self.out_width ==> #[trigger] map@[flat2(
                    flat3(c, kr, kc, self.kernel_height as int, self.kernel_width as int),
                    flat3(b, orow, ocol, self.out_height as int, self.out_width as int),
                    self.spec_output_positions(),
                )] == self.patch_source(c, kr, kc, b, orow, ocol),
            forall|s: int|
                0 <= s < map.len() ==> (#[trigger] map@[s] matches Some(i) ==> i
                    < self.spec_input_len()),
    {
        let patch = self.patch_size();
        let positions = self.output_positions();
        let total = patch * positions;
        let mut map: Vec<Option<usize>> = Vec::with_capacity(total);
        let mut slot: usize = 0;
        while slot < total
            invariant
                self.wf(),
                patch == self.spec_patch_size(),
                positions == self.spec_output_positions(),
                total == patch * positions,
                slot <= total,
                map.len() == slot,
                forall|s: int| 0 <= s < slot ==> #[trigger] map@[s] == self.column_source(s),
                forall|s: int|
                    0 <= s < slot ==> (#[trigger] map@[s] matches Some(i) ==> i
                        < self.spec_input_len()),
            decreases total - slot,
        {
            let entry = self.column_entry(slot);
            map.push(entry);
            slot = slot + 1;
        }
        proof {
            assert forall|c: int, kr: int, kc: int, b: int, orow: int, ocol: int|
                0 <= c < self.in_channels && 0 <= kr < self.kernel_height && 0 <= kc
                    < self.kernel_width && 0 <= b < self.batch && 0 <= orow < self.out_height && 0
                    <= ocol < self.out_width implies #[trigger] map@[flat2(
                flat3(c, kr, kc, self.kernel_height as int, self.kernel_width as int),
                flat3(b, orow, ocol, self.out_height as int, self.out_width as int),
                self.spec_output_positions(),
            )] == self.patch_source(c, kr, kc, b, orow, ocol) by {
                self.lemma_column_source_at(c, kr, kc, b, orow, ocol);
            }
        }
        map
    }

    proof fn lemma_column_source_at(&self, c: int, kr: int, kc: int, b: int, orow: int, ocol: int)
        requires
            self.wf(),
            0 <= c < self.in_channels,
            0 <= kr < self.kernel_height,
            0 <= kc < self.kernel_width,
            0 <= b < self.batch,
            0 <= orow < self.out_height,
            0 <= ocol < self.out_width,
        ensures
            ({
                let slot = flat2(
                    flat3(c, kr, kc, self.kernel_height as int, self.kernel_width as int),
                    flat3(b, orow, ocol, self.out_height as int, self.out_width as int),
                    self.spec_output_positions(),
                );
                &&& 0 <= slot < self.spec_patch_size() * self.spec_output_positions()
                &&& self.column_source(slot) == self.patch_source(c, kr, kc, b, orow, ocol)
            }),
    {
        let kh = self.kernel_height as int;
        let kw = self.kernel_width as int;
        let oh = self.out_height as int;
        let ow = self.out_width as int;
        let p = self.spec_output_positions();
        let row = flat3(c, kr, kc, kh, kw);
        let pos = flat3(b, orow, ocol, oh, ow);
        lemma_flat3_bound(c, kr, kc, self.in_channels as int, kh, kw);
        lemma_flat3_bound(b, orow, ocol, self.batch as int, oh, ow);
        lemma_split2(row, pos, p);
        crate::index::lemma_flat2_bound(row, pos, self.spec_patch_size(), p);
        lemma_split3(c, kr, kc, kh, kw);
        lemma_split3(b, orow, ocol, oh, ow);
    }

    /// The entry of the column matrix at flat slot `slot`.
    fn column_entry(&self, slot: usize) -> (e: Option<usize>)
        requires
            self.wf(),
            slot < self.spec_patch_size() * self.spec_output_positions(),
        ensures
            e == self.column_source(slot as int),
            e matches Some(i) ==> i < self.spec_input_len(),
    {
        let positions = self.output_positions();
        let patch = self.patch_size();
        proof {
            assert(positions > 0 && patch > 0) by (nonlinear_arith)
                requires
                    slot < patch * positions,
                    patch >= 0,
                    positions >= 0,
            ;
            lemma_join2(slot as int, patch as int, positions as int);
            assert(self.kernel_width > 0 && self.kernel_height > 0 && self.in_channels > 0)
                by (nonlinear_arith)
                requires
                    patch == self.in_channels * self.kernel_height * self.kernel_width,
                    patch > 0,
            ;
            assert(self.out_width > 0 && self.out_height > 0 && self.batch > 0) by (nonlinear_arith)
                requires
                    positions == self.batch * self.out_height * self.out_width,
                    positions > 0,
            ;
        }
        let row = slot / positions;
        let pos = slot % positions;
        proof {
            lemma_join3(row as int, self.in_channels as int, self.kernel_height as int, self.kernel_width as int);
            lemma_join3(pos as int, self.batch as int, self.out_height as int, self.out_width as int);
        }
        let kc = row % self.kernel_width;
        let kr = (row / self.kernel_width) % self.kernel_height;
        let c = (row / self.kernel_width) / self.kernel_height;
        let ocol = pos % self.out_width;
        let orow = (pos / self.out_width) % self.out_height;
        let b = (pos / self.out_width) / self.out_height;
        proof {
            self.lemma_padded_bound(orow as int, kr as int, ocol as int, kc as int);
        }
        let prow = orow * self.stride + kr;
        let pcol = ocol * self.stride + kc;
        if prow < self.padding || prow - self.padding >= self.in_height {
            return None;
        }
        if pcol < self.padding || pcol - self.padding >= self.in_width {
            return None;
        }
        let in_row = prow - self.padding;
        let in_col = pcol - self.padding;
        proof {
            lemma_flat4_bound(
                b as int,
                c as int,
                in_row as int,
                in_col as int,
                self.batch as int,
                self.in_channels as int,
                self.in_height as int,
                self.in_width as int,
            );
            lemma_flat4_parts(
                b as int,
                c as int,
                in_row as int,
                in_col as int,
                self.in_channels as int,
                self.in_height as int,
                self.in_width as int,
            );
        }
        Some(((b * self.in_channels + c) * self.in_height + in_row) * self.in_width + in_col)
    }

    /// A kernel position inside an output position stays inside the padded input.
    proof fn lemma_padded_bound(&self, orow: int, kr: int, ocol: int, kc: int)
        requires
            self.wf(),
            0 <= orow < self.out_height,
            0 <= kr < self.kernel_height,
            0 <= ocol < self.out_width,
            0 <= kc < self.kernel_width,
        ensures
            0 <= orow * self.stride <= orow * self.stride + kr < self.in_height + 2 * self.padding,
            0 <= ocol * self.stride <= ocol * self.stride + kc < self.in_width + 2 * self.padding,
    {
        lemma_window_fits(orow, kr, self.stride as int, (self.in_height + 2 * self.padding) as int, self.kernel_height as int);
        lemma_window_fits(ocol, kc, self.stride as int, (self.in_width + 2 * self.padding) as int, self.kernel_width as int);
    }
}

/// The sizes of a 2-D pooling of an `[batch, channels, in_height, in_width]`
/// input with square `kernel x kernel` windows.
pub struct Pool2dGeometry {
    pub batch: usize,
    pub channels: usize,
    pub in_height: usize,
    pub in_width: usize,
    pub kernel: usize,
    pub stride: usize,
    pub out_height: usize,
    pub out_width: usize,
}

impl Pool2dGeometry {
    pub open spec fn spec_planes(&self) -> int {
        self.batch * self.channels
    }

    pub open spec fn spec_output_len(&self) -> int {
        self.batch * self.channels * self.out_height * self.out_width
    }

    pub open spec fn spec_input_len(&self) -> int {
        self.batch * self.channels * self.in_height * self.in_width
    }

    /// The sizes are consistent and the input and output element counts fit in a `usize`.
    pub open spec fn wf(&self) -> bool {
        &&& self.stride > 0
        &&& self.kernel <= self.in_height
        &&& self.kernel <= self.in_width
        &&& self.out_height == (self.in_height - self.kernel) / (self.stride as int) + 1
        &&& self.out_width == (self.in_width - self.kernel) / (self.stride as int) + 1
        &&& self.spec_input_len() <= usize::MAX
        &&& self.spec_output_len() <= usize::MAX
    }

    /// The input element at offset `(kr, kc)` of the window of output position
    /// `(out_row, out_col)` in plane `plane`.
    pub open spec fn window_source(&self, plane: int, out_row: int, out_col: int, kr: int, kc: int) -> int {
        flat3(
            plane,
            out_row * self.stride + kr,
            out_col * self.stride + kc,
            self.in_height as int,
            self.in_width as int,
        )
    }

    /// The geometry of a pooling of an input of shape `input_shape`; `None` when
    /// the shape is not 4-D, the stride is 0, the kernel exceeds the input, or the
    /// output element count overflows a `usize`.
    pub fn new(input_shape: &[usize], kernel: usize, stride: usize) -> (g: Option<Pool2dGeometry>)
        requires
            input_shape.len() == 4 ==> input_shape[0] * input_shape[1] * input_shape[2] * input_shape[3]
                <= usize::MAX,
        ensures
            g is Some <==> (input_shape.len() == 4 && pool_geometry_of(input_shape@, kernel, stride).wf()),
            g matches Some(g) ==> g == pool_geometry_of(input_shape@, kernel, stride),
    {
        if input_shape.len() != 4 {
            return None;
        }
        let batch = input_shape[0];
        let channels = input_shape[1];
        let in_height = input_shape[2];
        let in_width = input_shape[3];
        if stride == 0 || kernel > in_height || kernel > in_width {
            return None;
        }
        let out_height = match ((in_height - kernel) / stride).checked_add(1) {
            Some(v) => v,
            None => {
                return None;
            },
        };
        let out_width = match ((in_width - kernel) / stride).checked_add(1) {
            Some(v) => v,
            None => {
                return None;
            },
        };
        if !product_fits4(batch, channels, out_height, out_width) {
            return None;
        }
        Some(Pool2dGeometry { batch, channels, in_height, in_width, kernel, stride, out_height, out_width })
    }

    pub fn planes(&self) -> (n: usize)
        requires
            self.wf(),
        ensures
            n == self.spec_planes(),
    {
        if self.in_height == 0 || self.in_width == 0 {
            proof {
                assert(self.out_height >= 1 && self.out_width >= 1);
                assert(self.spec_planes() * self.out_height * self.out_width <= usize::MAX);
                lemma_mul_mono(self.spec_planes(), self.out_height as int);
                assert(self.spec_planes() >= 0) by (nonlinear_arith)
                    requires
                        self.batch >= 0,
                        self.channels >= 0,
                ;
                lemma_mul_mono(self.spec_planes() * self.out_height, self.out_width as int);
            }
        } else {
            proof {
                assert(self.spec_planes() >= 0) by (nonlinear_arith)
                    requires
                        self.batch >= 0,
                        self.channels >= 0,
                ;
                lemma_mul_mono(self.spec_planes(), self.in_height as int);
                lemma_mul_mono(self.spec_planes() * self.in_height, self.in_width as int);
            }
        }
        self.batch * self.channels
    }

    pub fn output_len(&self) -> (n: usize)
        requires
            self.wf(),
        ensures
            n == self.spec_output_len(),
    {
        mul4(self.batch, self.channels, self.out_height, self.out_width)
    }

    /// The output shape `[batch, channels, out_height, out_width]`.
    pub fn output_shape(&self) -> (s: Vec<usize>)
        ensures
            s@ == seq![self.batch, self.channels, self.out_height, self.out_width],
    {
        let mut s: Vec<usize> = Vec::new();
        s.push(self.batch);
        s.push(self.channels);
        s.push(self.out_height);
        s.push(self.out_width);
        assert(s@ =~= seq![self.batch, self.channels, self.out_height, self.out_width]);
        s
    }

    /// The output positions `(plane, out_row, out_col)` in row-major order.
    pub fn output_positions(&self) -> (ps: Vec<(usize, usize, usize)>)
        requires
            self.wf(),
        ensures
            ps.len() == self.spec_output_len(),
            forall|p: int, r: int, c: int|
                0 <= p < self.spec_planes() && 0 <= r < self.out_height && 0 <= c < self.out_width
                    ==> #[trigger] ps@[flat3(p, r, c, self.out_height as int, self.out_width as int)]
                    == (p as usize, r as usize, c as usize),
    {
        let planes = self.planes();
        let mut ps: Vec<(usize, usize, usize)> = Vec::new();
        let oh = self.out_height;
        let ow = self.out_width;
        let mut p: usize = 0;
        while p < planes
            invariant
                self.wf(),
                planes == self.spec_planes(),
                oh == self.out_height,
                ow == self.out_width,
                p <= planes,
                ps.len() == p * oh * ow,
                forall|pp: int, r: int, c: int|
                    0 <= pp < p && 0 <= r < oh && 0 <= c < ow ==> #[trigger] ps@[flat3(
                        pp,
                        r,
                        c,
                        oh as int,
                        ow as int,
                    )] == (pp as usize, r as usize, c as usize),
            decreases planes - p,
        {
            let mut r: usize = 0;
            while r < oh
                invariant
                    self.wf(),
                    planes == self.spec_planes(),
                    oh == self.out_height,
                    ow == self.out_width,
                    p < planes,
                    r <= oh,
                    ps.len() == (p * oh + r) * ow,
                    forall|pp: int, rr: int, c: int|
                        (0 <= pp < p && 0 <= rr < oh || pp == p && 0 <= rr < r) && 0 <= c < ow
                            ==> #[trigger] ps@[flat3(pp, rr, c, oh as int, ow as int)] == (
                            pp as usize,
                            rr as usize,
                            c as usize,
                        ),
                decreases oh - r,
            {
                let mut c: usize = 0;
                while c < ow
                    invariant
                        self.wf(),
                        planes == self.spec_planes(),
                        oh == self.out_height,
                        ow == self.out_width,
                        p < planes,
                        r < oh,
                        c <= ow,
                        ps.len() == (p * oh + r) * ow + c,
                        forall|pp: int, rr: int, cc: int|
                            ((0 <= pp < p && 0 <= rr < oh || pp == p && 0 <= rr < r) && 0 <= cc
                                < ow || pp == p && rr == r && 0 <= cc < c) ==> #[trigger] ps@[flat3(
                                pp,
                                rr,
                                cc,
                                oh as int,
                                ow as int,
                            )] == (pp as usize, rr as usize, cc as usize),
                    decreases ow - c,
                {
                    proof {
                        self.lemma_position_order(p as int, r as int, c as int);
                    }
                    ps.push((p, r, c));
                    c = c + 1;
                }
                proof {
                    assert((p * oh + r) * ow + ow == (p * oh + (r + 1)) * ow) by (nonlinear_arith);
                }
                r = r + 1;
            }
            proof {
                assert((p * oh + oh) * ow == (p + 1) * oh * ow) by (nonlinear_arith);
            }
            p = p + 1;
        }
        ps
    }

    proof fn lemma_position_order(&self, p: int, r: int, c: int)
        requires
            self.wf(),
            0 <= p < self.spec_planes(),
            0 <= r < self.out_height,
            0 <= c < self.out_width,
        ensures
            flat3(p, r, c, self.out_height as int, self.out_width as int) == (p * self.out_height + r)
                * self.out_width + c,
            (p * self.out_height + r) * self.out_width + c < self.spec_output_len(),
            forall|pp: int, rr: int, cc: int|
                (0 <= pp < p && 0 <= rr < self.out_height || pp == p && 0 <= rr < r) && 0 <= cc
                    < self.out_width || pp == p && rr == r && 0 <= cc < c ==> flat3(
                    pp,
                    rr,
                    cc,
                    self.out_height as int,
                    self.out_width as int,
                ) < flat3(p, r, c, self.out_height as int, self.out_width as int),
    {
        let oh = self.out_height as int;
        let ow = self.out_width as int;
        lemma_flat3_bound(p, r, c, self.spec_planes(), oh, ow);
        let b = self.batch as int;
        let ch = self.channels as int;
        assert(self.spec_planes() == b * ch);
        assert(self.spec_output_len() == b * ch * oh * ow);
        assert((b * ch) * oh * ow == b * ch * oh * ow) by (nonlinear_arith);
        assert forall|pp: int, rr: int, cc: int|
            (0 <= pp < p && 0 <= rr < oh || pp == p && 0 <= rr < r) && 0 <= cc < ow || pp == p && rr
                == r && 0 <= cc < c implies flat3(pp, rr, cc, oh, ow) < flat3(p, r, c, oh, ow) by {
            if pp < p {
                assert(flat3(pp, rr, cc, oh, ow) < flat3(p, 0, 0, oh, ow)) by (nonlinear_arith)
                    requires
                        0 <= pp < p,
                        0 <= rr < oh,
                        0 <= cc < ow,
                ;
                assert(flat3(p, 0, 0, oh, ow) <= flat3(p, r, c, oh, ow)) by (nonlinear_arith)
                    requires
                        0 <= r,
                        0 <= c,
                        ow >= 0,
                ;
            } else if rr < r {
                assert(flat3(pp, rr, cc, oh, ow) < flat3(p, r, c, oh, ow)) by (nonlinear_arith)
                    requires
                        pp == p,
                        0 <= rr < r,
                        0 <= cc < ow,
                        0 <= c,
                ;
            }
        }
    }

    /// The input indices of the window of output position `(out_row, out_col)` in
    /// plane `plane`, in row-major window order.
    pub fn window(&self, plane: usize, out_row: usize, out_col: usize) -> (w: Vec<usize>)
        requires
            self.wf(),
            plane < self.spec_planes(),
            out_row < self.out_height,
            out_col < self.out_width,
        ensures
            w.len() == self.kernel * self.kernel,
            forall|kr: int, kc: int|
                0 <= kr < self.kernel && 0 <= kc < self.kernel ==> #[trigger] w@[flat2(
                    kr,
                    kc,
                    self.kernel as int,
                )] == self.window_source(plane as int, out_row as int, out_col as int, kr, kc),
            forall|i: int| 0 <= i < w.len() ==> #[trigger] w@[i] < self.spec_input_len(),
    {
        let k = self.kernel;
        let mut w: Vec<usize> = Vec::new();
        let mut kr: usize = 0;
        while kr < k
            invariant
                self.wf(),
                k == self.kernel,
                plane < self.spec_planes(),
                out_row < self.out_height,
                out_col < self.out_width,
                kr <= k,
                w.len() == kr * k,
                forall|r: int, c: int|
                    0 <= r < kr && 0 <= c < k ==> #[trigger] w@[flat2(r, c, k as int)]
                        == self.window_source(plane as int, out_row as int, out_col as int, r, c),
                forall|i: int| 0 <= i < w.len() ==> #[trigger] w@[i] < self.spec_input_len(),
            decreases k - kr,
        {
            let mut kc: usize = 0;
            while kc < k
                invariant
                    self.wf(),
                    k == self.kernel,
                    plane < self.spec_planes(),
                    out_row < self.out_height,
                    out_col < self.out_width,
                    kr < k,
                    kc <= k,
                    w.len() == kr * k + kc,
                    forall|r: int, c: int|
                        (0 <= r < kr && 0 <= c < k || r == kr && 0 <= c < kc) ==> #[trigger] w@[flat2(
                            r,
                            c,
                            k as int,
                        )] == self.window_source(plane as int, out_row as int, out_col as int, r, c),
                    forall|i: int| 0 <= i < w.len() ==> #[trigger] w@[i] < self.spec_input_len(),
                decreases k - kc,
            {
                let idx = self.window_index(plane, out_row, out_col, kr, kc);
                proof {
                    assert forall|r: int, c: int|
                        (0 <= r < kr && 0 <= c < k || r == kr && 0 <= c < kc) implies flat2(
                        r,
                        c,
                        k as int,
                    ) < kr * k + kc by {
                        if r < kr {
                            assert(r * k + c < kr * k) by (nonlinear_arith)
                                requires
                                    0 <= r < kr,
                                    0 <= c < k,
                            ;
                        }
                    }
                }
                w.push(idx);
                kc = kc + 1;
            }
            proof {
                assert(kr * k + k == (kr + 1) * k) by (nonlinear_arith);
            }
            kr = kr + 1;
        }
        w
    }

    fn window_index(&self, plane: usize, out_row: usize, out_col: usize, kr: usize, kc: usize) -> (i: usize)
        requires
            self.wf(),
            plane < self.spec_planes(),
            out_row < self.out_height,
            out_col < self.out_width,
            kr < self.kernel,
            kc < self.kernel,
        ensures
            i == self.window_source(plane as int, out_row as int, out_col as int, kr as int, kc as int),
            i < self.spec_input_len(),
    {
        proof {
            lemma_window_fits(out_row as int, kr as int, self.stride as int, self.in_height as int, self.kernel as int);
            lemma_window_fits(out_col as int, kc as int, self.stride as int, self.in_width as int, self.kernel as int);
            let r = out_row * self.stride + kr;
            let c = out_col * self.stride + kc;
            lemma_flat3_bound(plane as int, r, c, self.spec_planes(), self.in_height as int, self.in_width as int);
            assert(self.spec_planes() * self.in_height * self.in_width == self.spec_input_len()) by (nonlinear_arith);
            lemma_flat4_parts(plane as int, r, c, 0, self.in_height as int, self.in_width as int, 1);
        }
        let r = out_row * self.stride + kr;
        let c = out_col * self.stride + kc;
        (plane * self.in_height + r) * self.in_width + c
    }
}

/// The pooling geometry that the shape, kernel and stride describe.
pub open spec fn pool_geometry_of(input: Seq<usize>, kernel: usize, stride: usize) -> Pool2dGeometry {
    Pool2dGeometry {
        batch: input[0],
        channels: input[1],
        in_height: input[2],
        in_width: input[3],
        kernel,
        stride,
        out_height: ((input[2] - kernel) / (stride as int) + 1) as usize,
        out_width: ((input[3] - kernel) / (stride as int) + 1) as usize,
    }
}

/// The geometry that the shapes, stride and padding describe.
/// Convolution of these shapes with this stride and padding is defined.
pub open spec fn conv_shapes_valid(input: Seq<usize>, weight: Seq<usize>, stride: usize, padding: usize) -> bool {
    &&& input.len() == 4
    &&& weight.len() == 4
    &&& input[1] == weight[1]
    &&& conv_geometry_of(input, weight, stride, padding).wf()
}

pub open spec fn conv_geometry_of(input: Seq<usize>, weight: Seq<usize>, stride: usize, padding: usize) -> Conv2dGeometry {
    Conv2dGeometry {
        batch: input[0],
        in_channels: input[1],
        in_height: input[2],
        in_width: input[3],
        out_channels: weight[0],
        kernel_height: weight[2],
        kernel_width: weight[3],
        stride,
        padding,
        out_height: conv_out_dim(input[2] as int, weight[2] as int, stride as int, padding as int) as usize,
        out_width: conv_out_dim(input[3] as int, weight[3] as int, stride as int, padding as int) as usize,
    }
}

/// The column matrix reads the input laid out `[batch, in_channels, in_height,
/// in_width]`: the patch entry of channel `c` at kernel offset `(kr, kc)` for
/// output position `(b, orow, ocol)` is the element of sample `b`, channel `c`,
/// at row `orow * stride + kr - padding` and column `ocol * stride + kc - padding`
/// (whose flat index divides back into exactly those coordinates), and nothing
/// where that place lies in the padding.
pub proof fn law_im2col_reads_nchw(g: Conv2dGeometry, c: int, kr: int, kc: int, b: int, orow: int, ocol: int)
    requires
        g.wf(),
        0 <= c < g.in_channels,
        0 <= kr < g.kernel_height,
        0 <= kc < g.kernel_width,
        0 <= b < g.batch,
        0 <= orow < g.out_height,
        0 <= ocol < g.out_width,
    ensures
        ({
            let row = orow * g.stride + kr - g.padding;
            let col = ocol * g.stride + kc - g.padding;
            let e = ((b * g.in_channels + c) * g.in_height + row) * g.in_width + col;
            if 0 <= row < g.in_height && 0 <= col < g.in_width {
                &&& g.patch_source(c, kr, kc, b, orow, ocol) == Some(e as usize)
                &&& 0 <= e < g.batch * g.in_channels * g.in_height * g.in_width
                &&& e % (g.in_width as int) == col
                &&& (e / (g.in_width as int)) % (g.in_height as int) == row
                &&& ((e / (g.in_width as int)) / (g.in_height as int)) % (g.in_channels as int) == c
                &&& ((e / (g.in_width as int)) / (g.in_height as int)) / (g.in_channels as int) == b
            } else {
                g.patch_source(c, kr, kc, b, orow, ocol) is None
            }
        }),
{
    let row = orow * g.stride + kr - g.padding;
    let col = ocol * g.stride + kc - g.padding;
    if 0 <= row < g.in_height && 0 <= col < g.in_width {
        let w = g.in_width as int;
        let h = g.in_height as int;
        let ch = g.in_channels as int;
        let e = ((b * ch + c) * h + row) * w + col;
        assert(e == flat4(b, c, row, col, ch, h, w));
        lemma_flat4_bound(b, c, row, col, g.batch as int, ch, h, w);
        lemma_split2(flat3(b, c, row, ch, h), col, w);
        lemma_split3(b, c, row, ch, h);
    }
}

/// The sizes of the convolution of an `[batch, in_channels, in_height, in_width]`
/// input with an `[out_channels, in_channels, kernel_height, kernel_width]` weight:
/// each output side is `(input side + 2 * padding - kernel side) / stride + 1`.
pub proof fn law_conv_geometry_from_shapes(input: Seq<usize>, weight: Seq<usize>, stride: usize, padding: usize)
    requires
        conv_shapes_valid(input, weight, stride, padding),
    ensures
        ({
            let g = conv_geometry_of(input, weight, stride, padding);
            &&& g.batch == input[0]
            &&& g.in_channels == input[1]
            &&& g.in_height == input[2]
            &&& g.in_width == input[3]
            &&& g.out_channels == weight[0]
            &&& g.kernel_height == weight[2]
            &&& g.kernel_width == weight[3]
            &&& g.stride == stride
            &&& g.padding == padding
            &&& g.out_height == (input[2] + 2 * padding - weight[2]) / (stride as int) + 1
            &&& g.out_width == (input[3] + 2 * padding - weight[3]) / (stride as int) + 1
        }),
{
}

/// A convolution is defined exactly when both shapes are 4-D with the same
/// channels, the stride is positive, each kernel side fits in the padded input
/// side, and the sides, the element counts of input, patch and output positions,
/// and the column and output matrices all fit in a `usize`.
pub proof fn law_conv_defined(input: Seq<usize>, weight: Seq<usize>, stride: usize, padding: usize)
    ensures
        conv_shapes_valid(input, weight, stride, padding) <==> {
            &&& input.len() == 4
            &&& weight.len() == 4
            &&& input[1] == weight[1]
            &&& stride > 0
            &&& input[2] + 2 * padding <= usize::MAX
            &&& input[3] + 2 * padding <= usize::MAX
            &&& weight[2] <= input[2] + 2 * padding
            &&& weight[3] <= input[3] + 2 * padding
            &&& (input[2] + 2 * padding - weight[2]) / (stride as int) + 1 <= usize::MAX
            &&& (input[3] + 2 * padding - weight[3]) / (stride as int) + 1 <= usize::MAX
            &&& input[0] * input[1] * input[2] * input[3] <= usize::MAX
            &&& input[1] * weight[2] * weight[3] <= usize::MAX
            &&& input[0] * ((input[2] + 2 * padding - weight[2]) / (stride as int) + 1) * ((input[3] + 2
                * padding - weight[3]) / (stride as int) + 1) <= usize::MAX
            &&& input[1] * weight[2] * weight[3] * (input[0] * ((input[2] + 2 * padding - weight[2]) / (
            stride as int) + 1) * ((input[3] + 2 * padding - weight[3]) / (stride as int) + 1))
                <= usize::MAX
            &&& weight[0] * (input[0] * ((input[2] + 2 * padding - weight[2]) / (stride as int) + 1) * ((
            input[3] + 2 * padding - weight[3]) / (stride as int) + 1)) <= usize::MAX
        },
{
    if input.len() == 4 && weight.len() == 4 && stride > 0 && weight[2] <= input[2] + 2 * padding
        && weight[3] <= input[3] + 2 * padding {
        let s = stride as int;
        let oh = (input[2] + 2 * padding - weight[2]) / s + 1;
        let ow = (input[3] + 2 * padding - weight[3]) / s + 1;
        assert(oh >= 1 && ow >= 1) by (nonlinear_arith)
            requires
                s > 0,
                input[2] + 2 * padding - weight[2] >= 0,
                input[3] + 2 * padding - weight[3] >= 0,
                oh == (input[2] + 2 * padding - weight[2]) / s + 1,
                ow == (input[3] + 2 * padding - weight[3]) / s + 1,
        ;
    }
}

/// A window that starts at output position `o` (of a strided sweep over `padded`
/// elements with windows of `kernel`) ends inside the padded input.
pub proof fn lemma_window_fits(o: int, k: int, stride: int, padded: int, kernel: int)
    requires
        stride > 0,
        0 <= kernel <= padded,
        0 <= o < (padded - kernel) / stride + 1,
        0 <= k < kernel,
    ensures
        0 <= o * stride <= o * stride + k < padded,
{
    let q = (padded - kernel) / stride;
    assert(q * stride <= padded - kernel) by (nonlinear_arith)
        requires
            stride > 0,
            padded - kernel >= 0,
            q == (padded - kernel) / stride,
    ;
    assert(0 <= o * stride <= q * stride) by (nonlinear_arith)
        requires
            0 <= o <= q,
            stride > 0,
    ;
}

proof fn lemma_mul_mono(x: int, y: int)
    requires
        0 <= x,
        1 <= y,
    ensures
        x <= x * y,
{
    assert(x <= x * y) by (nonlinear_arith)
        requires
            0 <= x,
            1 <= y,
    ;
}

/// The product `a * b * c`, when it fits in a `usize`.
pub fn mul3(a: usize, b: usize, c: usize) -> (r: usize)
    requires
        a * b * c <= usize::MAX,
    ensures
        r == a * b * c,
{
    if a == 0 || b == 0 || c == 0 {
        assert(a * b * c == 0) by (nonlinear_arith)
            requires
                a == 0 || b == 0 || c == 0,
        ;
        return 0;
    }
    proof {
        lemma_mul_mono(a * b, c as int);
        lemma_mul_mono(a as int, b as int);
    }
    a * b * c
}

/// The product `a * b * c * d`, when it fits in a `usize`.
pub fn mul4(a: usize, b: usize, c: usize, d: usize) -> (r: usize)
    requires
        a * b * c * d <= usize::MAX,
    ensures
        r == a * b * c * d,
{
    if d == 0 {
        assert(a * b * c * d == 0) by (nonlinear_arith)
            requires
                d == 0,
        ;
        return 0;
    }
    proof {
        assert(a * b * c >= 0) by (nonlinear_arith);
        lemma_mul_mono(a * b * c, d as int);
    }
    let abc = mul3(a, b, c);
    abc * d
}

/// Whether `a * b * c * d` fits in a `usize`.
pub fn product_fits4(a: usize, b: usize, c: usize, d: usize) -> (r: bool)
    ensures
        r == (a * b * c * d <= usize::MAX),
{
    if a == 0 || b == 0 || c == 0 || d == 0 {
        assert(a * b * c * d == 0) by (nonlinear_arith)
            requires
                a == 0 || b == 0 || c == 0 || d == 0,
        ;
        return true;
    }
    proof {
        assert(a * b >= 1 && a * b * c >= 1) by (nonlinear_arith)
            requires
                a >= 1,
                b >= 1,
                c >= 1,
        ;
        lemma_mul_mono(a * b, c as int);
        lemma_mul_mono(a * b * c, d as int);
    }
    match a.checked_mul(b) {
        Some(ab) => match ab.checked_mul(c) {
            Some(abc) => abc.checked_mul(d).is_some(),
            None => false,
        },
        None => false,
    }
}

} // verus!
