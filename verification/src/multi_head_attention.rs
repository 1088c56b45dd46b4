//! The shape of multi-head attention: heads, masks, blocks and stored weights.

use crate::checkpoint::{Record, WeightMap, Weights};
use crate::error::{DataError, Fault, Part};
use crate::matrix::{self, Grid, Matrix};
use crate::table::Duplicate;
use vstd::prelude::*;

verus! {

/// How the heads divide the model.
#[derive(Clone, Copy, Debug, PartialEq, Eq, Structural)]
pub struct HeadShape {
    /// The length of a token's vector.
    pub d_model: usize,
    /// The number of query heads.
    pub n_heads: usize,
    /// The number of key and value heads, each shared by a group of query heads.
    pub n_kv_heads: usize,
    /// The length of a head's vector.
    pub d_head: usize,
    /// The length of all key heads together.
    pub d_kv_model: usize,
}

impl HeadShape {
    /// The numbers fit together.
    pub open spec fn wf(self) -> bool {
        &&& self.n_heads > 0
        &&& self.n_kv_heads > 0
        &&& self.d_model == self.n_heads * self.d_head
        &&& self.n_heads % self.n_kv_heads == 0
        &&& self.d_kv_model == self.n_kv_heads * self.d_head
    }

    /// The shape of attention with these numbers.
    pub fn new(d_model: usize, n_heads: usize, n_kv_heads: usize) -> (r: Self)
        requires
            n_heads > 0,
            n_kv_heads > 0,
            d_model % n_heads == 0,
            n_heads % n_kv_heads == 0,
        ensures
            r.wf(),
            r.d_model == d_model,
            r.n_heads == n_heads,
            r.n_kv_heads == n_kv_heads,
            r.d_head == d_model / n_heads,
            r.d_kv_model == n_kv_heads * (d_model / n_heads),
            r.d_kv_model <= d_model,
    {
        let d_head: usize = d_model / n_heads;
        proof {
            vstd::arithmetic::div_mod::lemma_fundamental_div_mod(d_model as int, n_heads as int);
            vstd::arithmetic::div_mod::lemma_fundamental_div_mod(
                n_heads as int,
                n_kv_heads as int,
            );
            assert(n_kv_heads <= n_heads) by (nonlinear_arith)
                requires
                    n_heads == n_kv_heads * (n_heads / n_kv_heads),
                    n_heads > 0,
                    n_kv_heads > 0,
            ;
            assert(n_kv_heads * d_head <= n_heads * d_head) by (nonlinear_arith)
                requires
                    n_kv_heads <= n_heads,
            ;
        }
        HeadShape { d_model, n_heads, n_kv_heads, d_head, d_kv_model: n_kv_heads * d_head }
    }

    /// The number of query heads that share a key head.
    pub open spec fn group(self) -> int {
        self.n_heads as int / self.n_kv_heads as int
    }

    /// The number of query heads that share a key head.
    pub fn group_size(&self) -> (r: usize)
        requires
            self.wf(),
        ensures
            r == self.group(),
            r > 0,
    {
        proof {
            lemma_groups(*self);
        }
        self.n_heads / self.n_kv_heads
    }

    /// The key head that the query head `h` uses.
    pub fn kv_head(&self, h: usize) -> (r: usize)
        requires
            self.wf(),
            h < self.n_heads,
        ensures
            r == h as int / self.group(),
            r < self.n_kv_heads,
    {
        proof {
            lemma_groups(*self);
            law_every_query_head_has_a_key_head(*self, h as int);
        }
        let group: usize = self.group_size();
        h / group
    }
}

/// The query heads are shared out evenly.
proof fn lemma_groups(s: HeadShape)
    requires
        s.wf(),
    ensures
        s.group() > 0,
        s.n_heads == s.n_kv_heads * s.group(),
{
    vstd::arithmetic::div_mod::lemma_fundamental_div_mod(s.n_heads as int, s.n_kv_heads as int);
    assert(s.group() > 0) by (nonlinear_arith)
        requires
            s.n_heads == s.n_kv_heads * s.group(),
            s.n_heads > 0,
            s.n_kv_heads > 0,
    ;
}

/// Every query head uses one of the key heads.
pub proof fn law_every_query_head_has_a_key_head(s: HeadShape, h: int)
    requires
        s.wf(),
        0 <= h < s.n_heads,
    ensures
        0 <= h / s.group() < s.n_kv_heads,
{
    lemma_groups(s);
    matrix::lemma_place_splits(h, s.n_kv_heads as int, s.group());
}

/// The query heads that use the key head `kv` are the `g`-th of its group, for
/// every `g`, and no others.
pub proof fn law_groups_are_consecutive(s: HeadShape, kv: int, h: int)
    requires
        s.wf(),
        0 <= kv < s.n_kv_heads,
        0 <= h < s.n_heads,
    ensures
        h / s.group() == kv <==> kv * s.group() <= h < (kv + 1) * s.group(),
{
    lemma_groups(s);
    matrix::lemma_next_row(kv, s.group());
    if kv * s.group() <= h < (kv + 1) * s.group() {
        matrix::lemma_row_and_column(kv, h - kv * s.group(), s.group());
    }
    matrix::lemma_place_splits(h, s.n_kv_heads as int, s.group());
}

/// Where each head's columns lie: head `h` has the columns from `h * d_head`.
pub proof fn law_heads_lie_within_the_model(s: HeadShape, h: int, kv: int)
    requires
        s.wf(),
        0 <= h < s.n_heads,
        0 <= kv < s.n_kv_heads,
    ensures
        0 <= h * s.d_head,
        h * s.d_head + s.d_head <= s.d_model,
        0 <= kv * s.d_head,
        kv * s.d_head + s.d_head <= s.d_kv_model,
{
    matrix::lemma_row_end(h, s.n_heads as int, s.d_head as int);
    matrix::lemma_row_end(kv, s.n_kv_heads as int, s.d_head as int);
}

/// For each token which tokens are hidden from it: those behind it.
pub fn causal_mask(seq_len: usize) -> (r: Vec<Vec<bool>>)
    ensures
        r@.len() == seq_len,
        forall|i: int| 0 <= i < seq_len ==> (#[trigger] r@[i])@.len() == seq_len,
        forall|i: int, j: int|
            0 <= i < seq_len && 0 <= j < seq_len ==> (#[trigger] r@[i]@[j] <==> j > i),
{
    let mut r: Vec<Vec<bool>> = Vec::new();
    let mut i: usize = 0;
    while i < seq_len
        invariant
            i <= seq_len,
            r@.len() == i,
            forall|a: int| 0 <= a < i ==> (#[trigger] r@[a])@.len() == seq_len,
            forall|a: int, b: int|
                0 <= a < i && 0 <= b < seq_len ==> (#[trigger] r@[a]@[b] <==> b > a),
        decreases seq_len - i,
    {
        let mut row: Vec<bool> = Vec::new();
        let mut j: usize = 0;
        while j < seq_len
            invariant
                j <= seq_len,
                row@.len() == j,
                forall|b: int| 0 <= b < j ==> (#[trigger] row@[b] <==> b > i),
            decreases seq_len - j,
        {
            row.push(j > i);
            j += 1;
        }
        r.push(row);
        i += 1;
    }
    r
}

/// The number of tokens that blockwise attention takes at a time.
pub const FA_BLOCK_SIZE: usize = 256;

/// The number of blocks of `n` tokens.
pub open spec fn block_count(n: int) -> int {
    (n + FA_BLOCK_SIZE - 1) / (FA_BLOCK_SIZE as int)
}

/// The first token of the block `b`.
pub open spec fn block_start(b: int) -> int {
    b * FA_BLOCK_SIZE
}

/// The token behind the last one of the block `b`.
pub open spec fn block_end(n: int, b: int) -> int {
    if block_start(b) + FA_BLOCK_SIZE <= n {
        block_start(b) + FA_BLOCK_SIZE
    } else {
        n
    }
}

/// The number of blocks of `n` tokens.
pub fn num_blocks(n: usize) -> (r: usize)
    ensures
        r == block_count(n as int),
{
    let full: usize = n / FA_BLOCK_SIZE;
    if n % FA_BLOCK_SIZE == 0 {
        full
    } else {
        full + 1
    }
}

/// The first token of the block `b` and the one behind its last.
pub fn block_range(n: usize, b: usize) -> (r: (usize, usize))
    requires
        b < block_count(n as int),
    ensures
        r.0 == block_start(b as int),
        r.1 == block_end(n as int, b as int),
        r.0 < r.1 <= n,
{
    let start: usize = b * FA_BLOCK_SIZE;
    let end: usize = if n - start >= FA_BLOCK_SIZE {
        start + FA_BLOCK_SIZE
    } else {
        n
    };
    (start, end)
}

/// Whether, in the block of scores of the queries `i_block` and the keys
/// `j_block`, the score in row `r` and column `c` is hidden.
pub open spec fn hidden_in_block(i_block: int, j_block: int, r: int, c: int) -> bool {
    i_block == j_block && c > r
}

/// The score in row `r` and column `c` of a block is hidden.
pub fn is_hidden(i_block: usize, j_block: usize, r: usize, c: usize) -> (hidden: bool)
    ensures
        hidden == hidden_in_block(i_block as int, j_block as int, r as int, c as int),
{
    i_block == j_block && c > r
}

/// Every token lies in exactly one block.
pub proof fn law_blocks_divide_the_tokens(n: int, t: int, b: int)
    requires
        0 <= t < n,
        0 <= b < block_count(n),
    ensures
        0 <= t / (FA_BLOCK_SIZE as int) < block_count(n),
        block_start(b) <= t < block_end(n, b) <==> b == t / (FA_BLOCK_SIZE as int),
{
}

/// Taking only the blocks of keys up to the block of the query, and hiding within
/// the diagonal block what lies right of the diagonal, computes the score of a
/// query and a key exactly if the causal mask shows the key to the query.
pub proof fn law_blocks_compute_what_the_mask_shows(n: int, query: int, key: int)
    requires
        0 <= query < n,
        0 <= key < n,
    ensures
        ({
            let i = query / (FA_BLOCK_SIZE as int);
            let j = key / (FA_BLOCK_SIZE as int);
            key <= query <==> j <= i && !hidden_in_block(
                i,
                j,
                query - block_start(i),
                key - block_start(j),
            )
        }),
{
}

/// The first `d_kv` columns of the keys and, right of them, those of the values.
pub open spec fn fused<T>(k: Grid<T>, v: Grid<T>, rows: nat, d_kv: nat) -> Grid<T> {
    Grid::of(
        rows,
        d_kv + d_kv,
        |i: int, j: int|
            if j < d_kv {
                k.at(i, j)
            } else {
                v.at(i, j - d_kv)
            },
    )
}

/// The weights of the keys within the fused weights.
pub fn slice_w_k<T: Copy + Default>(w_kv: &Matrix<T>) -> (r: Matrix<T>)
    requires
        w_kv@.wf(),
        w_kv@.cols % 2 == 0,
    ensures
        r@ == w_kv@.column_block(0, w_kv@.cols / 2),
{
    let mut parts: Vec<Matrix<T>> = w_kv.split_columns(2);
    assert(matrix::grids(parts@).len() == 2);
    assert(matrix::grids(parts@)[0] == parts@[0]@);
    parts.remove(0)
}

/// The weights of the values within the fused weights.
pub fn slice_w_v<T: Copy + Default>(w_kv: &Matrix<T>) -> (r: Matrix<T>)
    requires
        w_kv@.wf(),
        w_kv@.cols % 2 == 0,
    ensures
        r@ == w_kv@.column_block(1, w_kv@.cols / 2),
{
    let mut parts: Vec<Matrix<T>> = w_kv.split_columns(2);
    assert(matrix::grids(parts@).len() == 2);
    assert(matrix::grids(parts@)[1] == parts@[1]@);
    parts.remove(1)
}

/// The fused weights of keys and values.
pub fn assemble_w_kv<T: Copy>(k: &Matrix<T>, v: &Matrix<T>, rows: usize, d_kv: usize) -> (r: Matrix<
    T,
>)
    requires
        k@.wf(),
        v@.wf(),
        rows <= k@.rows,
        rows <= v@.rows,
        d_kv <= k@.cols,
        d_kv <= v@.cols,
        2 * d_kv <= usize::MAX,
        rows * (2 * d_kv) <= usize::MAX,
    ensures
        r@.wf(),
        r@ == fused(k@, v@, rows as nat, d_kv as nat),
{
    let cols: usize = 2 * d_kv;
    let ghost target = fused(k@, v@, rows as nat, d_kv as nat);
    let mut data: Vec<T> = Vec::new();
    let mut i: usize = 0;
    while i < rows
        invariant
            i <= rows,
            k@.wf(),
            v@.wf(),
            rows <= k@.rows,
            rows <= v@.rows,
            d_kv <= k@.cols,
            d_kv <= v@.cols,
            cols == 2 * d_kv,
            target == fused(k@, v@, rows as nat, d_kv as nat),
            data@.len() == i * cols,
            forall|p: int| 0 <= p < i * cols ==> data@[p] == target.data[p],
        decreases rows - i,
    {
        let ghost before = data@;
        proof {
            matrix::lemma_row_end(i as int, k@.rows as int, k@.cols as int);
            matrix::lemma_row_end(i as int, v@.rows as int, v@.cols as int);
        }
        let k_row: &[T] = k.row(i);
        let v_row: &[T] = v.row(i);
        matrix::extend_with(&mut data, vstd::slice::slice_subrange(k_row, 0, d_kv));
        matrix::extend_with(&mut data, vstd::slice::slice_subrange(v_row, 0, d_kv));
        proof {
            matrix::lemma_next_row(i as int, cols as int);
            matrix::lemma_row_end(i as int, rows as int, cols as int);
            assert forall|p: int| 0 <= p < (i + 1) * cols implies data@[p] == target.data[p] by {
                if p >= i * cols {
                    let j = p - i * cols;
                    matrix::lemma_row_and_column(i as int, j, cols as int);
                    if j < d_kv {
                        assert(data@[p] == k_row@[j]);
                        assert(k_row@[j] == k@.at(i as int, j));
                    } else {
                        assert(data@[p] == v_row@[j - d_kv]);
                        assert(v_row@[j - d_kv] == v@.at(i as int, j - d_kv));
                    }
                } else {
                    assert(data@[p] == before[p]);
                }
            }
        }
        i += 1;
    }
    let r = Matrix::from_flat(data, rows, cols);
    assert(r@ =~= target);
    r
}

/// Cutting the fused weights apart and fusing them again gives them back.
pub proof fn law_fused_weights_come_back<T>(w: Grid<T>)
    requires
        w.wf(),
        w.cols % 2 == 0,
    ensures
        fused(
            w.column_block(0, w.cols / 2),
            w.column_block(1, w.cols / 2),
            w.rows,
            w.cols / 2,
        ) == w,
{
    let half = w.cols / 2;
    let k = w.column_block(0, half);
    let v = w.column_block(1, half);
    matrix::lemma_of(w.rows, half, |i: int, j: int| w.at(i, 0 * half + j));
    matrix::lemma_of(w.rows, half, |i: int, j: int| w.at(i, 1 * half + j));
    let f = |i: int, j: int|
        if j < half {
            k.at(i, j)
        } else {
            v.at(i, j - half)
        };
    assert(fused(k, v, w.rows, half) == Grid::of(w.rows, w.cols, f));
    matrix::lemma_of(w.rows, w.cols, f);
    assert forall|i: int, j: int| 0 <= i < w.rows && 0 <= j < w.cols implies #[trigger] fused(
        k,
        v,
        w.rows,
        half,
    ).at(i, j) == w.at(i, j) by {
        assert(fused(k, v, w.rows, half).at(i, j) == f(i, j));
        if j < half {
            assert(k.at(i, j) == w.at(i, 0 * half + j));
        } else {
            assert(v.at(i, j - half) == w.at(i, 1 * half + (j - half)));
        }
    }
    matrix::lemma_same_elements(fused(k, v, w.rows, half), w);
}

/// What is stored of an attention layer.
pub struct AttentionWeights {
    pub shape: HeadShape,
    pub w_q: Vec<Vec<u32>>,
    pub w_k: Vec<Vec<u32>>,
    pub w_v: Vec<Vec<u32>>,
    pub w_o: Vec<Vec<u32>>,
}

/// What an `AttentionWeights` stands for.
#[verifier::ext_equal]
pub struct AttentionModel {
    pub shape: HeadShape,
    pub w_q: Seq<Seq<u32>>,
    pub w_k: Seq<Seq<u32>>,
    pub w_v: Seq<Seq<u32>>,
    pub w_o: Seq<Seq<u32>>,
}

impl View for AttentionWeights {
    type V = AttentionModel;

    open spec fn view(&self) -> AttentionModel {
        AttentionModel {
            shape: self.shape,
            w_q: self.w_q.deep_view(),
            w_k: self.w_k.deep_view(),
            w_v: self.w_v.deep_view(),
            w_o: self.w_o.deep_view(),
        }
    }
}

impl AttentionModel {
    /// What a checkpoint of the layer holds.
    pub open spec fn weights(self) -> Weights {
        Weights::empty().with(Record::Scalar("n_heads"@, self.shape.n_heads as u64)).with(
            Record::Scalar("n_kv_heads"@, self.shape.n_kv_heads as u64),
        ).with(Record::Scalar("d_model"@, self.shape.d_model as u64)).with(
            Record::Scalar("d_kv_model"@, self.shape.d_kv_model as u64),
        ).with(Record::Scalar("d_head"@, self.shape.d_head as u64)).with(
            Record::Matrix("w_q"@, self.w_q),
        ).with(Record::Matrix("w_k"@, self.w_k)).with(Record::Matrix("w_v"@, self.w_v)).with(
            Record::Matrix("w_o"@, self.w_o),
        )
    }

    /// The layer of the given shape that a checkpoint holds, or what is wrong
    /// with the checkpoint.
    pub open spec fn of_weights(shape: HeadShape, w: Weights) -> Result<Self, Fault> {
        if !w.scalars.contains_key("n_heads"@) {
            Err(Fault::MissingKey("n_heads"@))
        } else if !w.scalars.contains_key("n_kv_heads"@) {
            Err(Fault::MissingKey("n_kv_heads"@))
        } else if !w.scalars.contains_key("d_model"@) {
            Err(Fault::MissingKey("d_model"@))
        } else if !w.scalars.contains_key("d_kv_model"@) {
            Err(Fault::MissingKey("d_kv_model"@))
        } else if !w.scalars.contains_key("d_head"@) {
            Err(Fault::MissingKey("d_head"@))
        } else if shape != (HeadShape {
            d_model: w.scalars["d_model"@] as usize,
            n_heads: w.scalars["n_heads"@] as usize,
            n_kv_heads: w.scalars["n_kv_heads"@] as usize,
            d_head: w.scalars["d_head"@] as usize,
            d_kv_model: w.scalars["d_kv_model"@] as usize,
        }) {
            Err(Fault::Mismatch(Part::Attention))
        } else if !w.matrices.contains_key("w_q"@) {
            Err(Fault::MissingKey("w_q"@))
        } else if !w.matrices.contains_key("w_k"@) {
            Err(Fault::MissingKey("w_k"@))
        } else if !w.matrices.contains_key("w_v"@) {
            Err(Fault::MissingKey("w_v"@))
        } else if !w.matrices.contains_key("w_o"@) {
            Err(Fault::MissingKey("w_o"@))
        } else {
            Ok(
                AttentionModel {
                    shape,
                    w_q: w.matrices["w_q"@],
                    w_k: w.matrices["w_k"@],
                    w_v: w.matrices["w_v"@],
                    w_o: w.matrices["w_o"@],
                },
            )
        }
    }
}

impl AttentionWeights {
    /// The checkpoint of the layer.
    pub fn to_weight_map(&self) -> (r: WeightMap)
        ensures
            r.wf(),
            r@ == self@.weights(),
    {
        let mut map: WeightMap = WeightMap::new();
        map.insert_scalar("n_heads", self.shape.n_heads as u64);
        map.insert_scalar("n_kv_heads", self.shape.n_kv_heads as u64);
        map.insert_scalar("d_model", self.shape.d_model as u64);
        map.insert_scalar("d_kv_model", self.shape.d_kv_model as u64);
        map.insert_scalar("d_head", self.shape.d_head as u64);
        map.insert_matrix("w_q", self.w_q.duplicate());
        map.insert_matrix("w_k", self.w_k.duplicate());
        map.insert_matrix("w_v", self.w_v.duplicate());
        map.insert_matrix("w_o", self.w_o.duplicate());
        map
    }

    /// The layer of the given shape that a checkpoint holds.
    pub fn from_weight_map(shape: HeadShape, map: &WeightMap) -> (r: Result<Self, DataError>)
        requires
            map.wf(),
        ensures
            match r {
                Ok(layer) => AttentionModel::of_weights(shape, map@) == Ok::<AttentionModel, Fault>(
                    layer@,
                ),
                Err(e) => AttentionModel::of_weights(shape, map@) == Err::<AttentionModel, Fault>(
                    e@,
                ),
            },
    {
        let n_heads: u64 = map.get_scalar("n_heads")?;
        let n_kv_heads: u64 = map.get_scalar("n_kv_heads")?;
        let d_model: u64 = map.get_scalar("d_model")?;
        let d_kv_model: u64 = map.get_scalar("d_kv_model")?;
        let d_head: u64 = map.get_scalar("d_head")?;
        if n_heads as usize != shape.n_heads || n_kv_heads as usize != shape.n_kv_heads
            || d_model as usize != shape.d_model || d_kv_model as usize != shape.d_kv_model
            || d_head as usize != shape.d_head {
            return Err(DataError::Mismatch(Part::Attention));
        }
        let w_q: Vec<Vec<u32>> = map.get_matrix("w_q")?.duplicate();
        let w_k: Vec<Vec<u32>> = map.get_matrix("w_k")?.duplicate();
        let w_v: Vec<Vec<u32>> = map.get_matrix("w_v")?.duplicate();
        let w_o: Vec<Vec<u32>> = map.get_matrix("w_o")?.duplicate();
        Ok(AttentionWeights { shape, w_q, w_k, w_v, w_o })
    }
}

/// An attention layer comes back from its checkpoint.
pub proof fn law_attention_comes_back(m: AttentionModel)
    ensures
        AttentionModel::of_weights(m.shape, m.weights()) == Ok::<AttentionModel, Fault>(m),
{
    reveal_strlit("n_heads");
    reveal_strlit("n_kv_heads");
    reveal_strlit("d_model");
    reveal_strlit("d_kv_model");
    reveal_strlit("d_head");
    reveal_strlit("w_q");
    reveal_strlit("w_k");
    reveal_strlit("w_v");
    reveal_strlit("w_o");
    assert("n_heads"@.len() == 7 && "d_model"@.len() == 7 && "d_head"@.len() == 6);
    assert("n_kv_heads"@.len() == 10 && "d_kv_model"@.len() == 10);
    assert("n_heads"@[0] != "d_model"@[0]);
    assert("n_kv_heads"@[0] != "d_kv_model"@[0]);
    assert("w_q"@[2] == 'q' && "w_k"@[2] == 'k' && "w_v"@[2] == 'v' && "w_o"@[2] == 'o');
}

} // verus!
