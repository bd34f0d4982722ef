//! The integer side of the SCRFD face detector's output: which models give
//! landmarks, where the anchors of each stride lie, whether a tensor fits
//! the frame, and which detections survive non-maximum suppression.
use vstd::prelude::*;

verus! {

/// The number of anchors per cell of an SCRFD feature map.
pub const NUM_ANCHORS: usize = 2;

/// The inference settings of the SCRFD 500M model; it has none yet.
#[derive(Debug)]
pub struct InferenceConfig {}

/// The SCRFD models.
#[derive(Debug, Clone, Copy, PartialEq, Eq, Structural)]
pub enum ModelType {
    Scrfd1g,
    Scrfd2_5g,
    Scrfd2_5gKps,
    Scrfd10g,
    Scrfd10gKps,
    Scrfd34g,
    Scrfd500m,
    Scrfd500mKps,
}

impl ModelType {
    /// Whether the model also gives five facial landmarks per face.
    pub open spec fn spec_is_kps(self) -> bool {
        self is Scrfd2_5gKps || self is Scrfd10gKps || self is Scrfd500mKps
    }

    /// Whether the model also gives five facial landmarks per face.
    pub fn is_kps(&self) -> (r: bool)
        ensures
            r == self.spec_is_kps(),
    {
        match self {
            ModelType::Scrfd2_5gKps | ModelType::Scrfd10gKps | ModelType::Scrfd500mKps => true,
            _ => false,
        }
    }
}

/// Whether a stream of SCRFD tensors carries landmarks.
#[derive(Debug, Clone, Copy, PartialEq, Eq, Structural)]
pub enum ModelKind {
    Normal,
    Kps,
}

impl ModelKind {
    /// The kind of model whose tensors a stream announces: with landmarks
    /// when the landmark tensor group is announced, without when only the
    /// plain group is, and unknown otherwise.
    pub fn from_tensor_groups(has_kps_group: bool, has_group: bool) -> (r: Option<ModelKind>)
        ensures
            r == (if has_kps_group {
                Some(ModelKind::Kps)
            } else if has_group {
                Some(ModelKind::Normal)
            } else {
                None
            }),
    {
        if has_kps_group {
            Some(ModelKind::Kps)
        } else if has_group {
            Some(ModelKind::Normal)
        } else {
            None
        }
    }
}

/// The centre, in pixels, of anchor `i` of a grid with `cols` cells per row
/// and cells of `stride` pixels; the anchors of a cell follow one another,
/// cells go row by row.
pub open spec fn anchor_center(i: int, cols: int, stride: int) -> (int, int) {
    (((i / NUM_ANCHORS as int) % cols) * stride, ((i / NUM_ANCHORS as int) / cols) * stride)
}

proof fn lemma_cell_of(y: int, x: int, a: int, cols: int)
    requires
        0 <= y,
        0 <= x < cols,
        0 <= a < 2,
    ensures
        ((y * cols + x) * 2 + a) / 2 == y * cols + x,
        (y * cols + x) % cols == x,
        (y * cols + x) / cols == y,
{
    assert(((y * cols + x) * 2 + a) / 2 == y * cols + x) by (nonlinear_arith)
        requires
            0 <= y,
            0 <= x,
            0 <= a < 2,
            cols > 0,
    ;
    vstd::arithmetic::div_mod::lemma_fundamental_div_mod_converse(y * cols + x, cols, y, x);
}

/// The anchor centres of a grid of `cols` by `rows` cells of `stride`
/// pixels: `NUM_ANCHORS` per cell, cells row by row.
pub fn grid_centers(cols: usize, rows: usize, stride: usize) -> (r: Vec<(usize, usize)>)
    requires
        cols * rows * NUM_ANCHORS <= usize::MAX,
        cols * stride <= usize::MAX,
        rows * stride <= usize::MAX,
    ensures
        r.len() == cols * rows * NUM_ANCHORS,
        forall|i: int| 0 <= i < r.len() ==> (#[trigger] r@[i]).0 == anchor_center(i, cols as int, stride as int).0
            && r@[i].1 == anchor_center(i, cols as int, stride as int).1,
{
    let mut r: Vec<(usize, usize)> = Vec::new();
    let mut y: usize = 0;
    while y < rows
        invariant
            y <= rows,
            r.len() == (y * cols) * 2,
            cols * rows * NUM_ANCHORS <= usize::MAX,
            cols * stride <= usize::MAX,
            rows * stride <= usize::MAX,
            forall|i: int| 0 <= i < r.len() ==> (#[trigger] r@[i]).0 == anchor_center(i, cols as int, stride as int).0
                && r@[i].1 == anchor_center(i, cols as int, stride as int).1,
        decreases rows - y,
    {
        let mut x: usize = 0;
        while x < cols
            invariant
                y < rows,
                x <= cols,
                r.len() == (y * cols + x) * 2,
                cols * rows * NUM_ANCHORS <= usize::MAX,
                cols * stride <= usize::MAX,
                rows * stride <= usize::MAX,
                forall|i: int| 0 <= i < r.len() ==> (#[trigger] r@[i]).0 == anchor_center(i, cols as int, stride as int).0
                    && r@[i].1 == anchor_center(i, cols as int, stride as int).1,
            decreases cols - x,
        {
            assert(x * stride <= cols * stride) by (nonlinear_arith)
                requires
                    x <= cols,
            ;
            assert(y * stride <= rows * stride) by (nonlinear_arith)
                requires
                    y <= rows,
            ;
            let cx = x * stride;
            let cy = y * stride;
            let mut a: usize = 0;
            while a < NUM_ANCHORS
                invariant
                    y < rows,
                    x < cols,
                    a <= NUM_ANCHORS,
                    r.len() == (y * cols + x) * 2 + a,
                    cx == x * stride,
                    cy == y * stride,
                    forall|i: int| 0 <= i < r.len() ==> (#[trigger] r@[i]).0 == anchor_center(i, cols as int, stride as int).0
                        && r@[i].1 == anchor_center(i, cols as int, stride as int).1,
                decreases NUM_ANCHORS - a,
            {
                proof {
                    lemma_cell_of(y as int, x as int, a as int, cols as int);
                }
                r.push((cx, cy));
                a = a + 1;
            }
            proof {
                assert((y * cols + x) * 2 + 2 == (y * cols + (x + 1)) * 2) by (nonlinear_arith);
            }
            x = x + 1;
        }
        proof {
            assert((y * cols + cols) * 2 == ((y + 1) * cols) * 2) by (nonlinear_arith);
        }
        y = y + 1;
    }
    proof {
        assert((rows * cols) * 2 == cols * rows * NUM_ANCHORS) by (nonlinear_arith);
    }
    r
}

/// The anchor centres of one stride of an input of `input_w` by `input_h`
/// pixels: a grid of whole cells of `stride` pixels.
pub fn anchor_centers(stride: usize, input_w: usize, input_h: usize) -> (r: Vec<(usize, usize)>)
    requires
        stride > 0,
        (input_w / stride) * (input_h / stride) * NUM_ANCHORS <= usize::MAX,
    ensures
        r.len() == (input_w / stride) * (input_h / stride) * NUM_ANCHORS,
        forall|i: int| 0 <= i < r.len() ==> (#[trigger] r@[i]).0 == anchor_center(i, (input_w / stride) as int, stride as int).0
            && r@[i].1 == anchor_center(i, (input_w / stride) as int, stride as int).1,
{
    let gw = input_w / stride;
    let gh = input_h / stride;
    proof {
        vstd::arithmetic::div_mod::lemma_div_multiples_vanish_fancy(0, 0, stride as int);
        assert(gw * stride <= input_w) by (nonlinear_arith)
            requires
                gw == input_w / stride,
                stride > 0,
        ;
        assert(gh * stride <= input_h) by (nonlinear_arith)
            requires
                gh == input_h / stride,
                stride > 0,
        ;
    }
    grid_centers(gw, gh, stride)
}

/// `ceil(a / b)`.
pub open spec fn ceil_div(a: int, b: int) -> int {
    (a + b - 1) / b
}

/// The cells per row and per column of the feature map of one stride over a
/// frame of `width` by `height` pixels, when a tensor of `num_anchors`
/// anchors fits it; the map covers the frame with whole cells.
pub fn feature_map(width: u32, height: u32, stride: usize, num_anchors: usize) -> (r: Option<(usize, usize)>)
    requires
        stride > 0,
        ceil_div(width as int, stride as int) * ceil_div(height as int, stride as int) * NUM_ANCHORS <= usize::MAX,
    ensures
        r matches Some((w, h)) ==> w == ceil_div(width as int, stride as int) && h == ceil_div(height as int, stride as int),
        r is Some <==> ceil_div(width as int, stride as int) * ceil_div(height as int, stride as int) * NUM_ANCHORS
            == num_anchors,
{
    let w = width as usize;
    let h = height as usize;
    proof {
        lemma_ceil_div(w as int, stride as int);
        lemma_ceil_div(h as int, stride as int);
        lemma_ceil_div_fits(w as int, stride as int);
        lemma_ceil_div_fits(h as int, stride as int);
    }
    let feat_w = if w % stride == 0 { w / stride } else { w / stride + 1 };
    let feat_h = if h % stride == 0 { h / stride } else { h / stride + 1 };
    if feat_w * feat_h * NUM_ANCHORS != num_anchors {
        return None;
    }
    Some((feat_w, feat_h))
}

proof fn lemma_ceil_div(a: int, b: int)
    requires
        a >= 0,
        b > 0,
    ensures
        ceil_div(a, b) == a / b + (if a % b == 0 { 0int } else { 1int }),
{
    vstd::arithmetic::div_mod::lemma_fundamental_div_mod(a, b);
    let q = a / b;
    let r = a % b;
    vstd::arithmetic::mul::lemma_mul_is_commutative(b, q);
    vstd::arithmetic::div_mod::lemma_mod_bound(a, b);
    assert((q + 1) * b == q * b + b) by (nonlinear_arith);
    if r == 0 {
        vstd::arithmetic::div_mod::lemma_fundamental_div_mod_converse(a + b - 1, b, q, b - 1);
    } else {
        vstd::arithmetic::div_mod::lemma_fundamental_div_mod_converse(a + b - 1, b, q + 1, r - 1);
    }
}

proof fn lemma_ceil_div_fits(a: int, b: int)
    requires
        0 <= a <= u32::MAX,
        b > 0,
    ensures
        a % b != 0 ==> a / b + 1 <= u32::MAX,
{
    if a == 0 {
        vstd::arithmetic::div_mod::lemma_small_mod(0, b as nat);
    }
    if a % b != 0 {
        if b == 1 {
            assert(a % b == 0);
        } else {
            vstd::arithmetic::div_mod::lemma_div_decreases(a, b);
        }
    }
}

/// Whether the score, box and landmark tensors of one stride have the same
/// number of anchors.
pub fn anchor_counts_agree(score_anchors: usize, bbox_anchors: usize, kps_anchors: Option<usize>) -> (r: bool)
    ensures
        r == (score_anchors == bbox_anchors && (kps_anchors matches Some(k) ==> k == score_anchors)),
{
    if score_anchors != bbox_anchors {
        return false;
    }
    match kps_anchors {
        Some(k) => k == score_anchors,
        None => true,
    }
}

/// Whether some index of `kept` names a detection that suppresses
/// detection `i`.
pub open spec fn suppressed_by(sup: Seq<Seq<bool>>, kept: Seq<usize>, i: int) -> bool {
    exists|k: int| 0 <= k < kept.len() && sup[i][kept[k] as int]
}

/// The detections that greedy non-maximum suppression keeps among the
/// first `n`, taken best first: a detection is kept when no detection kept
/// before it suppresses it.
pub open spec fn nms_keep(sup: Seq<Seq<bool>>, n: int) -> Seq<usize>
    decreases n,
{
    if n <= 0 {
        Seq::empty()
    } else {
        let kept = nms_keep(sup, n - 1);
        if suppressed_by(sup, kept, n - 1) {
            kept
        } else {
            kept.push((n - 1) as usize)
        }
    }
}

/// Whether `sup` is square with `n` rows.
pub open spec fn square(sup: Seq<Seq<bool>>, n: int) -> bool {
    sup.len() == n && forall|i: int| 0 <= i < n ==> (#[trigger] sup[i]).len() == n
}

/// The rows of a matrix of flags.
pub open spec fn rows_of(m: Seq<Vec<bool>>) -> Seq<Seq<bool>> {
    m.map_values(|r: Vec<bool>| r@)
}

proof fn lemma_nms_keep_below(sup: Seq<Seq<bool>>, n: int)
    requires
        0 <= n <= usize::MAX,
    ensures
        forall|k: int| 0 <= k < nms_keep(sup, n).len() ==> #[trigger] nms_keep(sup, n)[k] < n,
        forall|a: int, b: int| 0 <= a < b < nms_keep(sup, n).len() ==> #[trigger] nms_keep(sup, n)[a] < #[trigger] nms_keep(sup, n)[b],
    decreases n,
{
    if n > 0 {
        lemma_nms_keep_below(sup, n - 1);
        let kept = nms_keep(sup, n - 1);
        let now = nms_keep(sup, n);
        assert forall|k: int| 0 <= k < now.len() implies #[trigger] now[k] < n by {
            if k < kept.len() {
                assert(now[k] == kept[k]);
            }
        }
        assert forall|a: int, b: int| 0 <= a < b < now.len() implies #[trigger] now[a] < #[trigger] now[b] by {
            assert(now[a] == kept[a]);
            if b < kept.len() {
                assert(now[b] == kept[b]);
            }
        }
    }
}

/// Greedy non-maximum suppression over detections ordered best first:
/// `suppress[i][j]` tells whether detection `j`, when kept, suppresses
/// detection `i`. Gives the indices of the detections kept, in order.
pub fn greedy_keep(suppress: &Vec<Vec<bool>>) -> (r: Vec<usize>)
    requires
        square(rows_of(suppress@), suppress.len() as int),
    ensures
        r@ == nms_keep(rows_of(suppress@), suppress.len() as int),
{
    let n = suppress.len();
    let ghost sup = rows_of(suppress@);
    let mut keep: Vec<usize> = Vec::new();
    let mut i: usize = 0;
    while i < n
        invariant
            i <= n,
            n == suppress.len(),
            sup == rows_of(suppress@),
            square(sup, n as int),
            keep@ == nms_keep(sup, i as int),
        decreases n - i,
    {
        proof {
            lemma_nms_keep_below(sup, i as int);
        }
        assert(sup[i as int] == suppress@[i as int]@);
        let mut hit = false;
        let mut k: usize = 0;
        while k < keep.len()
            invariant
                i < n,
                n == suppress.len(),
                sup == rows_of(suppress@),
                square(sup, n as int),
                sup[i as int] == suppress@[i as int]@,
                k <= keep.len(),
                keep@ == nms_keep(sup, i as int),
                forall|q: int| 0 <= q < keep.len() ==> #[trigger] keep@[q] < i,
                hit == exists|q: int| 0 <= q < k && sup[i as int][keep@[q] as int],
            decreases keep.len() - k,
        {
            if suppress[i][keep[k]] {
                hit = true;
            }
            k = k + 1;
        }
        if !hit {
            keep.push(i);
        }
        i = i + 1;
    }
    keep
}

/// No detection kept by non-maximum suppression suppresses a detection kept
/// after it, and every detection dropped is suppressed by one kept before
/// it.
pub proof fn lemma_nms_sound(sup: Seq<Seq<bool>>, n: int)
    requires
        0 <= n <= usize::MAX,
    ensures
        forall|a: int, b: int|
            0 <= a < b < nms_keep(sup, n).len() ==> !sup[#[trigger] nms_keep(sup, n)[b] as int][#[trigger] nms_keep(sup, n)[a] as int],
        forall|i: int| #![trigger nms_keep(sup, n).contains(i as usize)] 0 <= i < n && !nms_keep(sup, n).contains(i as usize) ==> exists|k: int|
            0 <= k < nms_keep(sup, n).len() && nms_keep(sup, n)[k] < i && #[trigger] sup[i][nms_keep(sup, n)[k] as int],
    decreases n,
{
    if n > 0 {
        lemma_nms_sound(sup, n - 1);
        lemma_nms_keep_below(sup, n - 1);
        lemma_nms_keep_below(sup, n);
        let kept = nms_keep(sup, n - 1);
        let now = nms_keep(sup, n);
        assert forall|i: int| #![trigger now.contains(i as usize)] 0 <= i < n && !now.contains(i as usize) implies exists|k: int|
            0 <= k < now.len() && now[k] < i && #[trigger] sup[i][now[k] as int] by {
            if i < n - 1 {
                if kept.contains(i as usize) {
                    let j = choose|j: int| 0 <= j < kept.len() && kept[j] == i as usize;
                    assert(now[j] == kept[j]);
                }
                let k = choose|k: int| 0 <= k < kept.len() && kept[k] < i && sup[i][kept[k] as int];
                assert(now[k] == kept[k]);
            } else {
                if !suppressed_by(sup, kept, n - 1) {
                    assert(now[now.len() - 1] == (n - 1) as usize);
                }
                let k = choose|k: int| 0 <= k < kept.len() && sup[n - 1][kept[k] as int];
                assert(now[k] == kept[k]);
            }
        }
    }
}

} // verus!
