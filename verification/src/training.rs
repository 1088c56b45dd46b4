//! What a training run decides: which tokens a step sees, and when to report, to
//! validate and to save.

use crate::text;
use crate::tokenizer::TokenizerKind;
use rand::rngs::SmallRng;
use rand::{RngExt, SeedableRng};
use vstd::prelude::*;

verus! {

/// `rand::rngs::SmallRng`, the generator that the windows are drawn from.
#[verifier::external_type_specification]
#[verifier::external_body]
pub struct ExSmallRng(SmallRng);

/// `SeedableRng::seed_from_u64` of rand: a generator for the given seed. Nothing
/// is claimed of what it will draw; that differs between platforms.
#[verifier::external_body]
fn seeded(seed: u64) -> (r: SmallRng) {
    SmallRng::seed_from_u64(seed)
}

/// `RngExt::random_range` of rand on the range from 0 up to and with `max`.
/// Believed: the number drawn lies in the range. The range is never empty.
#[verifier::external_body]
fn random_up_to(rng: &mut SmallRng, max: usize) -> (r: usize)
    ensures
        r <= max,
{
    rng.random_range(0..=max)
}

/// The last start of a window of `chunk_len` tokens in a text of `len` tokens.
pub fn max_offset(len: usize, chunk_len: usize) -> (r: usize)
    requires
        chunk_len <= len,
    ensures
        r == len - chunk_len,
{
    len - chunk_len
}

/// The start of a window of `chunk_len` tokens in a text of `len` tokens, drawn at
/// random from 0 up to and with `max_offset`.
pub fn draw_offset(rng: &mut SmallRng, len: usize, chunk_len: usize) -> (r: usize)
    requires
        len > chunk_len,
    ensures
        r + chunk_len <= len,
{
    random_up_to(rng, max_offset(len, chunk_len))
}

/// The starts of `count` windows of `chunk_len` tokens in a text of `len` tokens,
/// drawn at random.
pub fn draw_offsets(rng: &mut SmallRng, count: usize, len: usize, chunk_len: usize) -> (r: Vec<
    usize,
>)
    requires
        len > chunk_len,
    ensures
        r@.len() == count,
        forall|i: int| 0 <= i < count ==> #[trigger] r@[i] + chunk_len <= len,
{
    let mut r: Vec<usize> = Vec::new();
    while r.len() < count
        invariant
            len > chunk_len,
            r@.len() <= count,
            forall|i: int| 0 <= i < r@.len() ==> #[trigger] r@[i] + chunk_len <= len,
        decreases count - r@.len(),
    {
        let offset: usize = draw_offset(rng, len, chunk_len);
        r.push(offset);
    }
    r
}

/// The starts of the windows that the validation loss is measured on. There are
/// none where the text is no longer than a window.
pub fn validation_offsets(seed: u64, n_batches: usize, len: usize, chunk_len: usize) -> (r: Option<
    Vec<usize>,
>)
    ensures
        match r {
            Some(offsets) => len > chunk_len && offsets@.len() == n_batches && forall|i: int|
                0 <= i < n_batches ==> #[trigger] offsets@[i] + chunk_len <= len,
            None => len <= chunk_len,
        },
{
    if len <= chunk_len {
        return None;
    }
    let mut rng: SmallRng = seeded(seed);
    Some(draw_offsets(&mut rng, n_batches, len, chunk_len))
}

/// The tokens of a window.
pub fn window(ids: &[usize], offset: usize, chunk_len: usize) -> (r: &[usize])
    requires
        offset + chunk_len <= ids@.len(),
    ensures
        r@ == ids@.subrange(offset as int, offset + chunk_len),
{
    let len: usize = ids.len();
    assert(offset + chunk_len <= len);
    vstd::slice::slice_subrange(ids, offset, offset + chunk_len)
}

/// When a run reports, validates and saves.
#[derive(Clone, Copy, Debug, PartialEq, Eq, Structural)]
pub struct Schedule {
    pub log_every: usize,
    pub val_every: usize,
    pub save_every: usize,
    pub end_step: usize,
    pub val_enabled: bool,
}

/// What is to be done behind a step.
#[derive(Clone, Copy, Debug, PartialEq, Eq, Structural)]
pub struct StepPlan {
    pub log: bool,
    pub validate: bool,
    pub save: bool,
}

impl Schedule {
    /// Validation happens where it is asked for and there is a text for it that is
    /// longer than a window.
    pub fn new(
        log_every: usize,
        val_every: usize,
        save_every: usize,
        end_step: usize,
        val_len: usize,
        chunk_len: usize,
    ) -> (r: Self)
        ensures
            r == (Schedule {
                log_every,
                val_every,
                save_every,
                end_step,
                val_enabled: val_every > 0 && val_len > chunk_len,
            }),
    {
        Schedule {
            log_every,
            val_every,
            save_every,
            end_step,
            val_enabled: val_every > 0 && val_len > chunk_len,
        }
    }

    /// The numbers that a step is divided by are not zero.
    pub open spec fn sound(self) -> bool {
        &&& self.log_every > 0
        &&& self.save_every > 0
        &&& self.val_enabled ==> self.val_every > 0
    }

    /// What is to be done behind the step.
    pub fn at(&self, step: usize) -> (r: StepPlan)
        requires
            self.sound(),
        ensures
            r.log == (step % self.log_every == 0),
            r.validate == (self.val_enabled && step % self.val_every == 0),
            r.save == (step % self.save_every == 0),
    {
        StepPlan {
            log: step % self.log_every == 0,
            validate: self.val_enabled && step % self.val_every == 0,
            save: step % self.save_every == 0,
        }
    }
}

/// A text cut into what is trained on and, behind it, what is validated on:
/// `val_chars` characters, or all where there are fewer.
pub fn split_tail(s: &str, val_chars: usize) -> (r: (String, String))
    ensures
        r.0@ + r.1@ == s@,
        r.1@.len() == (if val_chars <= s@.len() {
            val_chars as nat
        } else {
            s@.len()
        }),
{
    let chars: Vec<char> = text::chars_of(s);
    let n: usize = chars.len();
    let split: usize = if val_chars <= n {
        n - val_chars
    } else {
        0
    };
    let train: String = text::string_of(&chars, 0, split);
    let val: String = text::string_of(&chars, split, n);
    assert(train@ + val@ =~= s@);
    (train, val)
}

/// The directory of the checkpoints of a run.
pub fn checkpoint_dir(run_name: &str) -> (r: String)
    ensures
        r@ == "checkpoints/"@ + run_name@,
{
    let mut r: String = "checkpoints/".to_owned();
    r.append(run_name);
    r
}

/// The checkpoint of a step: the step has at least six digits.
pub fn step_path(dir: &str, step: usize) -> (r: String)
    ensures
        r@ == dir@ + "/step_"@ + text::zero_padded(text::decimal(step as nat), 6) + ".bin"@,
{
    let mut r: String = dir.to_owned();
    r.append("/step_");
    r.append(text::padded_decimal_of(step as u64, 6).as_str());
    r.append(".bin");
    r
}

/// The file `name` in a directory.
pub fn path_in(dir: &str, name: &str) -> (r: String)
    ensures
        r@ == dir@ + "/"@ + name@,
{
    let mut r: String = dir.to_owned();
    r.append("/");
    r.append(name);
    r
}

/// The name of a kind of tokenizer in a file name.
pub open spec fn kind_name(kind: TokenizerKind) -> Seq<char> {
    match kind {
        TokenizerKind::Bpe => "bpe"@,
        TokenizerKind::Char => "char"@,
        TokenizerKind::CharBpe => "charbpe"@,
    }
}

/// The part of a file name that says how many characters merges were learned from.
pub open spec fn sample_name(sample: Option<usize>) -> Seq<char> {
    match sample {
        Some(n) => "_s"@ + text::decimal(n as nat),
        None => Seq::empty(),
    }
}

/// The file of a trained tokenizer, named by what it was trained with.
pub fn tokenizer_cache_path(
    kind: TokenizerKind,
    vocab_size: usize,
    corpus_stem: &str,
    sample: Option<usize>,
) -> (r: String)
    ensures
        r@ == "tokenizers/"@ + kind_name(kind) + "_v"@ + text::decimal(vocab_size as nat) + "_"@
            + corpus_stem@ + sample_name(sample) + ".bin"@,
{
    let mut r: String = "tokenizers/".to_owned();
    r.append(
        match kind {
            TokenizerKind::Bpe => "bpe",
            TokenizerKind::Char => "char",
            TokenizerKind::CharBpe => "charbpe",
        },
    );
    r.append("_v");
    r.append(text::decimal_of(vocab_size as u64).as_str());
    r.append("_");
    r.append(corpus_stem);
    match sample {
        Some(n) => {
            let ghost before = r@;
            r.append("_s");
            r.append(text::decimal_of(n as u64).as_str());
            assert(r@ =~= before + sample_name(sample));
        },
        None => {
            assert(r@ =~= r@ + sample_name(sample));
        },
    }
    r.append(".bin");
    r
}

} // verus!
