//! What is stored of the layers of a transformer.

use crate::checkpoint::{Record, WeightMap, Weights};
use crate::error::{DataError, Fault, Part};
use crate::feed_forward::{self, FeedForwardKind, FeedForwardModel, FeedForwardWeights};
use crate::multi_head_attention::{self, AttentionModel, AttentionWeights, HeadShape};
use crate::normalization::{self, NormModel, NormWeights, NormalizationKind};
use crate::scopes;
use crate::text;
use vstd::prelude::*;

verus! {

/// The numbers that every layer is built from.
#[derive(Clone, Copy, Debug, PartialEq, Eq, Structural)]
pub struct LayerConfig {
    pub d_model: usize,
    pub n_heads: usize,
    pub n_kv_heads: usize,
    pub d_ff: usize,
    pub normalization_kind: NormalizationKind,
    pub feed_forward_kind: FeedForwardKind,
}

impl LayerConfig {
    /// The heads divide the model, and the numbers computed from these exist.
    pub open spec fn sound(self) -> bool {
        &&& self.n_heads > 0
        &&& self.n_kv_heads > 0
        &&& self.d_model % self.n_heads == 0
        &&& self.n_heads % self.n_kv_heads == 0
        &&& self.feed_forward_kind == FeedForwardKind::SwiGlu ==> self.d_ff * 2 <= usize::MAX
    }

    /// Whether the heads divide the model and the numbers computed from these exist.
    pub fn is_sound(&self) -> (r: bool)
        ensures
            r == self.sound(),
    {
        if self.n_heads == 0 || self.n_kv_heads == 0 {
            return false;
        }
        let wide: bool = match self.feed_forward_kind {
            FeedForwardKind::SwiGlu => self.d_ff > usize::MAX / 2,
            FeedForwardKind::Gelu => false,
        };
        self.d_model % self.n_heads == 0 && self.n_heads % self.n_kv_heads == 0 && !wide
    }

    /// The shape of the attention.
    pub open spec fn shape(self) -> HeadShape {
        HeadShape {
            d_model: self.d_model,
            n_heads: self.n_heads,
            n_kv_heads: self.n_kv_heads,
            d_head: (self.d_model / self.n_heads) as usize,
            d_kv_model: (self.n_kv_heads * (self.d_model / self.n_heads)) as usize,
        }
    }
}

/// What is stored of one block: attention and a feed-forward network, each
/// behind a normalization.
pub struct BlockWeights {
    pub mha: AttentionWeights,
    pub norm1: NormWeights,
    pub ffn: FeedForwardWeights,
    pub norm2: NormWeights,
}

/// What a `BlockWeights` stands for.
#[verifier::ext_equal]
pub struct BlockModel {
    pub mha: AttentionModel,
    pub norm1: NormModel,
    pub ffn: FeedForwardModel,
    pub norm2: NormModel,
}

impl View for BlockWeights {
    type V = BlockModel;

    open spec fn view(&self) -> BlockModel {
        BlockModel {
            mha: self.mha@,
            norm1: self.norm1@,
            ffn: self.ffn@,
            norm2: self.norm2@,
        }
    }
}

impl BlockModel {
    /// The block is built from the numbers of `c`.
    pub open spec fn fits(self, c: LayerConfig) -> bool {
        &&& self.mha.shape == c.shape()
        &&& self.norm1.kind() == c.normalization_kind
        &&& self.norm1.fits(c.d_model)
        &&& self.ffn.kind() == c.feed_forward_kind
        &&& self.ffn.fits(c.d_model, c.d_ff)
        &&& self.norm2.kind() == c.normalization_kind
        &&& self.norm2.fits(c.d_model)
    }

    /// What a checkpoint of the block holds.
    pub open spec fn weights(self) -> Weights {
        Weights::empty().merged("mha"@, self.mha.weights()).merged(
            "norm1"@,
            self.norm1.weights(),
        ).merged("ffn"@, self.ffn.weights()).merged("norm2"@, self.norm2.weights())
    }

    /// The block of the given numbers that a checkpoint holds, or what is wrong
    /// with the checkpoint.
    pub open spec fn of_weights(c: LayerConfig, w: Weights) -> Result<Self, Fault> {
        match AttentionModel::of_weights(c.shape(), w.scoped("mha"@)) {
            Err(e) => Err(e),
            Ok(mha) => match NormModel::of_weights(
                c.normalization_kind,
                c.d_model,
                w.scoped("norm1"@),
            ) {
                Err(e) => Err(e),
                Ok(norm1) => match FeedForwardModel::of_weights(
                    c.feed_forward_kind,
                    c.d_model,
                    c.d_ff,
                    w.scoped("ffn"@),
                ) {
                    Err(e) => Err(e),
                    Ok(ffn) => match NormModel::of_weights(
                        c.normalization_kind,
                        c.d_model,
                        w.scoped("norm2"@),
                    ) {
                        Err(e) => Err(e),
                        Ok(norm2) => Ok(BlockModel { mha, norm1, ffn, norm2 }),
                    },
                },
            },
        }
    }
}

impl BlockWeights {
    /// The checkpoint of the block.
    pub fn to_weight_map(&self) -> (r: WeightMap)
        ensures
            r.wf(),
            r@ == self@.weights(),
    {
        let mut map: WeightMap = WeightMap::new();
        map.merge("mha", self.mha.to_weight_map());
        map.merge("norm1", self.norm1.to_weight_map());
        map.merge("ffn", self.ffn.to_weight_map());
        map.merge("norm2", self.norm2.to_weight_map());
        map
    }

    /// The block of the given numbers that a checkpoint holds.
    pub fn from_weight_map(c: LayerConfig, map: &WeightMap) -> (r: Result<Self, DataError>)
        requires
            map.wf(),
            c.sound(),
        ensures
            match r {
                Ok(block) => BlockModel::of_weights(c, map@) == Ok::<BlockModel, Fault>(block@),
                Err(e) => BlockModel::of_weights(c, map@) == Err::<BlockModel, Fault>(e@),
            },
    {
        let shape: HeadShape = HeadShape::new(c.d_model, c.n_heads, c.n_kv_heads);
        let mha: AttentionWeights = AttentionWeights::from_weight_map(shape, &map.scoped("mha"))?;
        let norm1: NormWeights = NormWeights::from_weight_map(
            c.normalization_kind,
            c.d_model,
            &map.scoped("norm1"),
        )?;
        let ffn: FeedForwardWeights = FeedForwardWeights::from_weight_map(
            c.feed_forward_kind,
            c.d_model,
            c.d_ff,
            &map.scoped("ffn"),
        )?;
        let norm2: NormWeights = NormWeights::from_weight_map(
            c.normalization_kind,
            c.d_model,
            &map.scoped("norm2"),
        )?;
        Ok(BlockWeights { mha, norm1, ffn, norm2 })
    }
}

/// The scopes within a block are apart.
proof fn lemma_block_scopes()
    ensures
        scopes::all_apart(("mha"@, "norm1"@, "ffn"@, "norm2"@)),
{
    reveal_strlit("mha");
    reveal_strlit("norm1");
    reveal_strlit("ffn");
    reveal_strlit("norm2");
    let (a, b, c, d) = (
        scopes::opening("mha"@),
        scopes::opening("norm1"@),
        scopes::opening("ffn"@),
        scopes::opening("norm2"@),
    );
    assert(scopes::differ_at(a, b, 0));
    assert(scopes::differ_at(a, c, 0));
    assert(scopes::differ_at(a, d, 0));
    assert(scopes::differ_at(b, c, 0));
    assert(scopes::differ_at(b, d, 4));
    assert(scopes::differ_at(c, d, 0));
}

/// The parts of a block are found in their scopes.
pub proof fn lemma_block_parts(m: BlockModel)
    ensures
        m.weights().scoped("mha"@) == m.mha.weights(),
        m.weights().scoped("norm1"@) == m.norm1.weights(),
        m.weights().scoped("ffn"@) == m.ffn.weights(),
        m.weights().scoped("norm2"@) == m.norm2.weights(),
{
    lemma_block_scopes();
    scopes::lemma_scope_of_empty("mha"@);
    scopes::lemma_scope_of_empty("norm1"@);
    scopes::lemma_scope_of_empty("ffn"@);
    scopes::lemma_scope_of_empty("norm2"@);
    scopes::lemma_four_parts(
        Weights::empty(),
        ("mha"@, "norm1"@, "ffn"@, "norm2"@),
        (m.mha.weights(), m.norm1.weights(), m.ffn.weights(), m.norm2.weights()),
    );
}

/// A block is loaded if its parts are.
proof fn lemma_block_of_parts(m: BlockModel, c: LayerConfig, w: Weights)
    requires
        AttentionModel::of_weights(c.shape(), w.scoped("mha"@)) == Ok::<AttentionModel, Fault>(
            m.mha,
        ),
        NormModel::of_weights(c.normalization_kind, c.d_model, w.scoped("norm1"@)) == Ok::<
            NormModel,
            Fault,
        >(m.norm1),
        FeedForwardModel::of_weights(c.feed_forward_kind, c.d_model, c.d_ff, w.scoped("ffn"@))
            == Ok::<FeedForwardModel, Fault>(m.ffn),
        NormModel::of_weights(c.normalization_kind, c.d_model, w.scoped("norm2"@)) == Ok::<
            NormModel,
            Fault,
        >(m.norm2),
    ensures
        BlockModel::of_weights(c, w) == Ok::<BlockModel, Fault>(m),
{
}

/// A block comes back from its checkpoint.
pub proof fn law_block_comes_back(m: BlockModel, c: LayerConfig)
    requires
        m.fits(c),
    ensures
        BlockModel::of_weights(c, m.weights()) == Ok::<BlockModel, Fault>(m),
{
    let w = m.weights();
    assert(w.scoped("mha"@) == m.mha.weights() && w.scoped("norm1"@) == m.norm1.weights()
        && w.scoped("ffn"@) == m.ffn.weights() && w.scoped("norm2"@) == m.norm2.weights()) by {
        lemma_block_parts(m);
    }
    assert(AttentionModel::of_weights(c.shape(), m.mha.weights()) == Ok::<AttentionModel, Fault>(
        m.mha,
    )) by {
        multi_head_attention::law_attention_comes_back(m.mha);
    }
    assert(NormModel::of_weights(c.normalization_kind, c.d_model, m.norm1.weights()) == Ok::<
        NormModel,
        Fault,
    >(m.norm1)) by {
        normalization::law_normalization_comes_back(m.norm1, c.d_model);
    }
    assert(FeedForwardModel::of_weights(c.feed_forward_kind, c.d_model, c.d_ff, m.ffn.weights())
        == Ok::<FeedForwardModel, Fault>(m.ffn)) by {
        feed_forward::law_feed_forward_comes_back(m.ffn, c.d_model, c.d_ff);
    }
    assert(NormModel::of_weights(c.normalization_kind, c.d_model, m.norm2.weights()) == Ok::<
        NormModel,
        Fault,
    >(m.norm2)) by {
        normalization::law_normalization_comes_back(m.norm2, c.d_model);
    }
    lemma_block_of_parts(m, c, w);
}

/// The scope of the block `i`.
pub open spec fn block_scope(i: int) -> Seq<char> {
    "blocks."@ + text::decimal(i as nat)
}

/// The scope of the block `i`.
pub fn block_prefix(i: usize) -> (r: String)
    ensures
        r@ == block_scope(i as int),
{
    let mut r: String = "blocks.".to_owned();
    r.append(text::decimal_of(i as u64).as_str());
    r
}

/// What is stored of the layers of a transformer.
pub struct TransformerWeights {
    pub blocks: Vec<BlockWeights>,
    pub final_norm: NormWeights,
}

/// What a `TransformerWeights` stands for.
#[verifier::ext_equal]
pub struct TransformerModel {
    pub blocks: Seq<BlockModel>,
    pub final_norm: NormModel,
}

impl View for TransformerWeights {
    type V = TransformerModel;

    open spec fn view(&self) -> TransformerModel {
        TransformerModel {
            blocks: self.blocks@.map_values(|b: BlockWeights| b@),
            final_norm: self.final_norm@,
        }
    }
}

/// The blocks merged into `w`, each in its scope.
pub open spec fn with_blocks(w: Weights, blocks: Seq<BlockModel>) -> Weights
    decreases blocks.len(),
{
    if blocks.len() == 0 {
        w
    } else {
        with_blocks(w, blocks.drop_last()).merged(
            block_scope(blocks.len() - 1),
            blocks.last().weights(),
        )
    }
}

/// The first `n` blocks of a checkpoint, or what is wrong with the first one that
/// cannot be loaded.
pub open spec fn blocks_of(c: LayerConfig, n: nat, w: Weights) -> Result<Seq<BlockModel>, Fault>
    decreases n,
{
    if n == 0 {
        Ok(Seq::empty())
    } else {
        match blocks_of(c, (n - 1) as nat, w) {
            Err(e) => Err(e),
            Ok(blocks) => match BlockModel::of_weights(c, w.scoped(block_scope(n - 1))) {
                Err(e) => Err(e),
                Ok(block) => Ok(blocks.push(block)),
            },
        }
    }
}

impl TransformerModel {
    /// Every layer is built from the numbers of `c`.
    pub open spec fn fits(self, c: LayerConfig) -> bool {
        &&& forall|i: int| 0 <= i < self.blocks.len() ==> (#[trigger] self.blocks[i]).fits(c)
        &&& self.final_norm.kind() == c.normalization_kind
        &&& self.final_norm.fits(c.d_model)
    }

    /// What a checkpoint of the transformer holds.
    pub open spec fn weights(self) -> Weights {
        with_blocks(
            Weights::empty().with(Record::Scalar("n_layers"@, self.blocks.len() as u64)),
            self.blocks,
        ).merged("final_norm"@, self.final_norm.weights())
    }

    /// The transformer with `n_layers` blocks that a checkpoint holds, or what is
    /// wrong with the checkpoint.
    pub open spec fn of_weights(c: LayerConfig, n_layers: usize, w: Weights) -> Result<
        Self,
        Fault,
    > {
        if !w.scalars.contains_key("n_layers"@) {
            Err(Fault::MissingKey("n_layers"@))
        } else if w.scalars["n_layers"@] as usize != n_layers {
            Err(Fault::Mismatch(Part::Transformer))
        } else {
            match blocks_of(c, n_layers as nat, w) {
                Err(e) => Err(e),
                Ok(blocks) => match NormModel::of_weights(
                    c.normalization_kind,
                    c.d_model,
                    w.scoped("final_norm"@),
                ) {
                    Err(e) => Err(e),
                    Ok(final_norm) => Ok(TransformerModel { blocks, final_norm }),
                },
            }
        }
    }
}

/// A block that cannot be loaded stops the loading of all.
proof fn lemma_blocks_fail(c: LayerConfig, m: nat, n: nat, w: Weights)
    requires
        m <= n,
        blocks_of(c, m, w) is Err,
    ensures
        blocks_of(c, n, w) == blocks_of(c, m, w),
    decreases n,
{
    if m < n {
        lemma_blocks_fail(c, m, (n - 1) as nat, w);
    }
}

impl TransformerWeights {
    /// The checkpoint of the transformer.
    pub fn to_weight_map(&self) -> (r: WeightMap)
        ensures
            r.wf(),
            r@ == self@.weights(),
    {
        let n: usize = self.blocks.len();
        let mut map: WeightMap = WeightMap::new();
        map.insert_scalar("n_layers", n as u64);
        let ghost start = map@;
        let ghost all = self@.blocks;
        let mut i: usize = 0;
        assert(all.take(0) =~= Seq::empty());
        while i < n
            invariant
                i <= n,
                n == self.blocks@.len(),
                all == self@.blocks,
                map.wf(),
                map@ == with_blocks(start, all.take(i as int)),
            decreases n - i,
        {
            let prefix: String = block_prefix(i);
            map.merge(prefix.as_str(), self.blocks[i].to_weight_map());
            i += 1;
            proof {
                assert(all.take(i as int).drop_last() =~= all.take(i - 1));
                assert(all.take(i as int).last() == self.blocks@[i - 1]@);
            }
        }
        assert(all.take(n as int) =~= all);
        map.merge("final_norm", self.final_norm.to_weight_map());
        map
    }

    /// The transformer with `n_layers` blocks that a checkpoint holds.
    pub fn from_weight_map(c: LayerConfig, n_layers: usize, map: &WeightMap) -> (r: Result<
        Self,
        DataError,
    >)
        requires
            map.wf(),
            n_layers > 0 ==> c.sound(),
        ensures
            match r {
                Ok(t) => TransformerModel::of_weights(c, n_layers, map@) == Ok::<
                    TransformerModel,
                    Fault,
                >(t@),
                Err(e) => TransformerModel::of_weights(c, n_layers, map@) == Err::<
                    TransformerModel,
                    Fault,
                >(e@),
            },
    {
        let stored_layers: u64 = map.get_scalar("n_layers")?;
        if stored_layers as usize != n_layers {
            return Err(DataError::Mismatch(Part::Transformer));
        }
        let mut blocks: Vec<BlockWeights> = Vec::new();
        let mut i: usize = 0;
        assert(blocks@.map_values(|b: BlockWeights| b@) =~= Seq::empty());
        while i < n_layers
            invariant
                i <= n_layers,
                map.wf(),
                n_layers > 0 ==> c.sound(),
                map@.scalars.contains_key("n_layers"@),
                map@.scalars["n_layers"@] as usize == n_layers,
                blocks@.len() == i,
                blocks_of(c, i as nat, map@) == Ok::<Seq<BlockModel>, Fault>(
                    blocks@.map_values(|b: BlockWeights| b@),
                ),
            decreases n_layers - i,
        {
            let prefix: String = block_prefix(i);
            let ghost before = blocks@.map_values(|b: BlockWeights| b@);
            match BlockWeights::from_weight_map(c, &map.scoped(prefix.as_str())) {
                Ok(block) => {
                    blocks.push(block);
                    assert(blocks@.map_values(|b: BlockWeights| b@) =~= before.push(block@));
                },
                Err(e) => {
                    proof {
                        assert(blocks_of(c, (i + 1) as nat, map@) == Err::<Seq<BlockModel>, Fault>(
                            e@,
                        ));
                        lemma_blocks_fail(c, (i + 1) as nat, n_layers as nat, map@);
                    }
                    return Err(e);
                },
            }
            i += 1;
        }
        let final_norm: NormWeights = NormWeights::from_weight_map(
            c.normalization_kind,
            c.d_model,
            &map.scoped("final_norm"),
        )?;
        Ok(TransformerWeights { blocks, final_norm })
    }
}

/// The scope of a block is apart from those of the other blocks and of the final
/// normalization, and holds not the number of layers.
proof fn lemma_block_scope(i: int)
    requires
        0 <= i,
    ensures
        forall|j: int| 0 <= j && j != i ==> scopes::apart(block_scope(i), #[trigger] block_scope(j)),
        scopes::apart(block_scope(i), "final_norm"@),
        scopes::apart("final_norm"@, block_scope(i)),
        scopes::outside(block_scope(i), "n_layers"@),
{
    reveal_strlit("blocks.");
    reveal_strlit("final_norm");
    reveal_strlit("n_layers");
    let p = scopes::opening(block_scope(i));
    text::lemma_decimal_digits(i as nat);
    assert forall|j: int| 0 <= j && j != i implies scopes::apart(
        block_scope(i),
        #[trigger] block_scope(j),
    ) by {
        text::lemma_decimal_digits(j as nat);
        if text::decimal(i as nat) == text::decimal(j as nat) {
            text::lemma_decimal_injective(i as nat, j as nat);
        }
        scopes::lemma_names_apart("blocks."@, text::decimal(i as nat), text::decimal(j as nat));
    }
    let q = scopes::opening("final_norm"@);
    assert(p[0] == "blocks."@[0] && q[0] == "final_norm"@[0]);
    assert(scopes::differ_at(p, q, 0) && scopes::differ_at(q, p, 0));
    assert(scopes::differ_at(p, "n_layers"@, 0));
}

/// Merging blocks fills their scopes and no others.
proof fn lemma_blocks_in_scopes(w: Weights, blocks: Seq<BlockModel>)
    requires
        forall|i: int| 0 <= i ==> w.scoped(#[trigger] block_scope(i)) == Weights::empty(),
        w.scoped("final_norm"@) == Weights::empty(),
        w.scalars.contains_key("n_layers"@),
    ensures
        forall|i: int|
            0 <= i < blocks.len() ==> with_blocks(w, blocks).scoped(#[trigger] block_scope(i))
                == blocks[i].weights(),
        forall|i: int|
            blocks.len() <= i ==> with_blocks(w, blocks).scoped(#[trigger] block_scope(i))
                == Weights::empty(),
        with_blocks(w, blocks).scoped("final_norm"@) == Weights::empty(),
        with_blocks(w, blocks).scalars.contains_key("n_layers"@),
        with_blocks(w, blocks).scalars["n_layers"@] == w.scalars["n_layers"@],
    decreases blocks.len(),
{
    if blocks.len() > 0 {
        let k = blocks.len() - 1;
        let part = blocks.last().weights();
        let before = with_blocks(w, blocks.drop_last());
        lemma_blocks_in_scopes(w, blocks.drop_last());
        lemma_block_scope(k);
        assert forall|i: int| 0 <= i implies with_blocks(w, blocks).scoped(
            #[trigger] block_scope(i),
        ) == (if i < blocks.len() {
            blocks[i].weights()
        } else {
            Weights::empty()
        }) by {
            lemma_block_scope(i);
            if i == k {
                scopes::lemma_scope_is_part(before, block_scope(k), part);
            } else {
                scopes::law_scopes_do_not_mix(before, block_scope(i), block_scope(k), part);
            }
        }
        scopes::law_scopes_do_not_mix(before, "final_norm"@, block_scope(k), part);
        scopes::lemma_scalar_stays(before, block_scope(k), part, "n_layers"@);
    }
}

/// Blocks in their scopes are loaded.
proof fn lemma_blocks_load(c: LayerConfig, w: Weights, blocks: Seq<BlockModel>, n: nat)
    requires
        n <= blocks.len(),
        forall|i: int| 0 <= i < blocks.len() ==> (#[trigger] blocks[i]).fits(c),
        forall|i: int|
            0 <= i < blocks.len() ==> w.scoped(#[trigger] block_scope(i)) == blocks[i].weights(),
    ensures
        blocks_of(c, n, w) == Ok::<Seq<BlockModel>, Fault>(blocks.take(n as int)),
    decreases n,
{
    if n == 0 {
        assert(blocks.take(0) =~= Seq::empty());
    } else {
        lemma_blocks_load(c, w, blocks, (n - 1) as nat);
        let block = blocks[n - 1];
        assert(block.fits(c));
        assert(w.scoped(block_scope(n - 1)) == block.weights());
        assert(BlockModel::of_weights(c, block.weights()) == Ok::<BlockModel, Fault>(block)) by {
            law_block_comes_back(block, c);
        }
        assert(blocks.take(n as int) =~= blocks.take(n - 1).push(block));
    }
}

/// Before the first block there is only the number of layers.
proof fn lemma_before_the_blocks(n: u64)
    ensures
        ({
            let start = Weights::empty().with(Record::Scalar("n_layers"@, n));
            &&& forall|i: int| 0 <= i ==> start.scoped(#[trigger] block_scope(i)) == Weights::empty()
            &&& start.scoped("final_norm"@) == Weights::empty()
            &&& start.scalars.contains_key("n_layers"@)
            &&& start.scalars["n_layers"@] == n
        }),
        scopes::outside("final_norm"@, "n_layers"@),
{
    let count = Record::Scalar("n_layers"@, n);
    let start = Weights::empty().with(count);
    assert forall|i: int| 0 <= i implies start.scoped(#[trigger] block_scope(i))
        == Weights::empty() by {
        lemma_block_scope(i);
        scopes::lemma_scope_with(Weights::empty(), block_scope(i), count);
        scopes::lemma_scope_of_empty(block_scope(i));
    }
    assert(scopes::outside("final_norm"@, "n_layers"@)) by {
        reveal_strlit("final_norm");
        reveal_strlit("n_layers");
        assert("n_layers"@.len() <= "final_norm"@.len());
    }
    scopes::lemma_scope_with(Weights::empty(), "final_norm"@, count);
    scopes::lemma_scope_of_empty("final_norm"@);
}

/// The parts of a transformer are found in their scopes.
pub proof fn lemma_transformer_parts(m: TransformerModel)
    ensures
        m.weights().scalars.contains_key("n_layers"@),
        m.weights().scalars["n_layers"@] == m.blocks.len() as u64,
        m.weights().scoped("final_norm"@) == m.final_norm.weights(),
        forall|i: int|
            0 <= i < m.blocks.len() ==> m.weights().scoped(#[trigger] block_scope(i))
                == m.blocks[i].weights(),
{
    let start = Weights::empty().with(Record::Scalar("n_layers"@, m.blocks.len() as u64));
    lemma_before_the_blocks(m.blocks.len() as u64);
    lemma_blocks_in_scopes(start, m.blocks);
    lemma_final_norm(with_blocks(start, m.blocks), m.blocks, m.final_norm.weights());
}

/// Merging the final normalization leaves the rest as it is.
proof fn lemma_final_norm(filled: Weights, blocks: Seq<BlockModel>, norm: Weights)
    requires
        filled.scoped("final_norm"@) == Weights::empty(),
        filled.scalars.contains_key("n_layers"@),
        forall|i: int|
            0 <= i < blocks.len() ==> filled.scoped(#[trigger] block_scope(i))
                == blocks[i].weights(),
    ensures
        ({
            let w = filled.merged("final_norm"@, norm);
            &&& w.scalars.contains_key("n_layers"@)
            &&& w.scalars["n_layers"@] == filled.scalars["n_layers"@]
            &&& w.scoped("final_norm"@) == norm
            &&& forall|i: int|
                0 <= i < blocks.len() ==> w.scoped(#[trigger] block_scope(i))
                    == blocks[i].weights()
        }),
{
    let w = filled.merged("final_norm"@, norm);
    lemma_before_the_blocks(0);
    scopes::lemma_scope_is_part(filled, "final_norm"@, norm);
    scopes::lemma_scalar_stays(filled, "final_norm"@, norm, "n_layers"@);
    assert forall|i: int| 0 <= i < blocks.len() implies w.scoped(#[trigger] block_scope(i))
        == blocks[i].weights() by {
        lemma_block_scope(i);
        scopes::law_scopes_do_not_mix(filled, block_scope(i), "final_norm"@, norm);
    }
}

/// A transformer is loaded if its parts are.
proof fn lemma_transformer_of_parts(m: TransformerModel, c: LayerConfig, w: Weights)
    requires
        m.blocks.len() <= usize::MAX,
        w.scalars.contains_key("n_layers"@),
        w.scalars["n_layers"@] == m.blocks.len() as u64,
        blocks_of(c, m.blocks.len(), w) == Ok::<Seq<BlockModel>, Fault>(m.blocks),
        NormModel::of_weights(c.normalization_kind, c.d_model, w.scoped("final_norm"@)) == Ok::<
            NormModel,
            Fault,
        >(m.final_norm),
    ensures
        TransformerModel::of_weights(c, m.blocks.len() as usize, w) == Ok::<
            TransformerModel,
            Fault,
        >(m),
{
}

/// A transformer comes back from its checkpoint.
pub proof fn law_transformer_comes_back(m: TransformerModel, c: LayerConfig)
    requires
        m.fits(c),
        m.blocks.len() <= usize::MAX,
    ensures
        TransformerModel::of_weights(c, m.blocks.len() as usize, m.weights()) == Ok::<
            TransformerModel,
            Fault,
        >(m),
{
    lemma_transformer_parts(m);
    lemma_blocks_load(c, m.weights(), m.blocks, m.blocks.len());
    assert(m.blocks.take(m.blocks.len() as int) =~= m.blocks);
    assert(NormModel::of_weights(c.normalization_kind, c.d_model, m.final_norm.weights()) == Ok::<
        NormModel,
        Fault,
    >(m.final_norm)) by {
        normalization::law_normalization_comes_back(m.final_norm, c.d_model);
    }
    lemma_transformer_of_parts(m, c, m.weights());
}

} // verus!
