use rand::rngs::SmallRng;
use rand::SeedableRng;
use transformer::cross_entropy_loss::CrossEntropyLoss;
use transformer::embedding::{lookup, trained_ids};
use transformer::feed_forward::{gated_width, GatedShape};
use transformer::matrix::Matrix;
use transformer::tokenizer::TokenizerKind;
use transformer::training::{
    checkpoint_dir, draw_offset, draw_offsets, max_offset, path_in, split_tail, step_path,
    tokenizer_cache_path, validation_offsets, window, Schedule,
};
use transformer::training_run::{is_improvement, Stage, Task, TrainingRun};

#[test]
fn drawn_windows_lie_within_the_text() {
    let mut rng = SmallRng::seed_from_u64(42);
    let offsets = draw_offsets(&mut rng, 200, 20, 15);
    assert_eq!(offsets.len(), 200);
    assert!(offsets.iter().all(|&o| o <= 5));
    assert!((0..=5).all(|o| offsets.contains(&o)));
    assert_eq!(max_offset(20, 15), 5);
    assert_eq!(max_offset(15, 15), 0);
    let one = draw_offset(&mut rng, 16, 15);
    assert!(one <= 1);
    let ids: Vec<usize> = (0..20).collect();
    assert_eq!(window(&ids, 5, 15), &ids[5..]);
}

#[test]
fn validation_draws_the_same_windows_again() {
    let a = validation_offsets(12345, 16, 1000, 100).unwrap();
    let b = validation_offsets(12345, 16, 1000, 100).unwrap();
    assert_eq!(a, b);
    assert_eq!(a.len(), 16);
    assert!(a.iter().all(|&o| o <= 900));
    assert_ne!(a, validation_offsets(54321, 16, 1000, 100).unwrap());
    assert!(validation_offsets(12345, 16, 100, 100).is_none());
    assert_eq!(validation_offsets(1, 0, 101, 100), Some(vec![]));
}

#[test]
fn padding_does_not_count_in_the_loss() {
    let ids = [7, 3, 0, 5, 0];
    let targets = CrossEntropyLoss::targets(&ids);
    assert_eq!(targets, &[3, 0, 5, 0]);
    let mask = CrossEntropyLoss::loss_mask(targets, 0);
    assert_eq!(mask, vec![1, 0, 1, 0]);
    assert_eq!(CrossEntropyLoss::valid_count(&mask), 2);
    let all = CrossEntropyLoss::loss_mask(targets, 99);
    assert_eq!(CrossEntropyLoss::valid_count(&all), 4);
}

#[test]
fn steps_report_validate_and_save_in_turn() {
    let s = Schedule::new(20, 100, 500, 1000, 2000, 256);
    assert!(s.val_enabled);
    let p = s.at(100);
    assert!(p.log && p.validate && !p.save);
    let p = s.at(500);
    assert!(p.log && p.validate && p.save);
    let p = s.at(7);
    assert!(!p.log && !p.validate && !p.save);
    assert!(!Schedule::new(20, 0, 500, 1000, 2000, 256).val_enabled);
    let short = Schedule::new(20, 100, 500, 1000, 256, 256);
    assert!(!short.val_enabled && !short.at(100).validate);
}

#[test]
fn the_end_of_a_text_is_kept_for_validation() {
    assert_eq!(split_tail("吾輩は猫", 1), ("吾輩は".to_string(), "猫".to_string()));
    assert_eq!(split_tail("ab", 0), ("ab".to_string(), String::new()));
    assert_eq!(split_tail("ab", 9), (String::new(), "ab".to_string()));
}

#[test]
fn files_are_named_by_what_they_hold() {
    let dir = checkpoint_dir("run");
    assert_eq!(dir, "checkpoints/run");
    assert_eq!(step_path(&dir, 42), "checkpoints/run/step_000042.bin");
    assert_eq!(step_path(&dir, 1234567), "checkpoints/run/step_1234567.bin");
    assert_eq!(path_in(&dir, "best.bin"), "checkpoints/run/best.bin");
    assert_eq!(
        tokenizer_cache_path(TokenizerKind::CharBpe, 8000, "aozora", Some(500_000)),
        "tokenizers/charbpe_v8000_aozora_s500000.bin"
    );
    assert_eq!(
        tokenizer_cache_path(TokenizerKind::Bpe, 4000, "tiny_shakespeare", None),
        "tokenizers/bpe_v4000_tiny_shakespeare.bin"
    );
    assert_eq!(
        tokenizer_cache_path(TokenizerKind::Char, 0, "k", None),
        "tokenizers/char_v0_k.bin"
    );
}

#[test]
fn a_gated_network_is_two_thirds_as_wide() {
    assert_eq!(gated_width(1536), 1024);
    assert_eq!(gated_width(12), 8);
    assert_eq!(gated_width(10), 6);
    assert_eq!(gated_width(2048), 1365);
    assert_eq!(gated_width(0), 0);
}

#[test]
fn forward_param_matched_d_ff_g() {
    let sw = GatedShape::new(384, 1536);
    assert_eq!(sw.d_ff_g, 1024);

    let sw = GatedShape::new(8, 12);
    assert_eq!(sw.d_ff_g, 8);

    let sw = GatedShape::new(8, 10);
    assert_eq!(sw.d_ff_g, 6);

    let zeros = |(rows, cols): (usize, usize)| Matrix::<u32>::zeros(rows, cols);
    assert_eq!(zeros(sw.w_gate).shape(), (8, 6));
    assert_eq!(zeros(sw.w_up).shape(), (8, 6));
    assert_eq!(zeros(sw.w_down).shape(), (6, 8));
}

#[test]
fn vectors_of_tokens_are_looked_up() {
    let weight = vec![vec![0.0, 0.0], vec![1.0, 2.0], vec![3.0, 4.0]];
    let m = lookup(&weight, &[2, 0, 2], 2);
    assert_eq!(m.to_jagged(), vec![vec![3.0, 4.0], vec![0.0, 0.0], vec![3.0, 4.0]]);
    assert_eq!(lookup(&weight, &[], 2).shape(), (0, 2));
}

#[test]
fn padding_is_not_trained() {
    assert_eq!(trained_ids(4, Some(1)), vec![0, 2, 3]);
    assert_eq!(trained_ids(3, None), vec![0, 1, 2]);
    assert_eq!(trained_ids(2, Some(9)), vec![0, 1]);
}

#[test]
fn a_run_does_what_is_due_in_order() {
    // Reports every 2 steps, validates every 3, saves every 4.
    let mut run = TrainingRun::new(Schedule::new(2, 3, 4, 6, 300, 256), 1);
    let losses = [2.5f32, 2.75];
    let mut measured = 0;
    let mut tasks = Vec::new();
    loop {
        let task = run.next_task();
        tasks.push(task);
        match task {
            Task::Validate(_) => {
                run.measured(losses[measured].to_bits());
                measured += 1;
            }
            Task::Finish => break,
            _ => run.done(),
        }
    }
    assert_eq!(
        tasks,
        vec![
            Task::Train(1),
            Task::Train(2),
            Task::Report(2),
            Task::Train(3),
            Task::Validate(3),
            Task::SaveBest(3),
            Task::Train(4),
            Task::Report(4),
            Task::Save(4),
            Task::Train(5),
            Task::Train(6),
            Task::Report(6),
            Task::Validate(6),
            Task::Finish,
        ]
    );
    assert_eq!(run.best, Some(2.5f32.to_bits()));
}

#[test]
fn a_run_without_steps_is_at_its_end() {
    let run = TrainingRun::new(Schedule::new(1, 0, 1, 10, 0, 256), 11);
    assert_eq!(run.stage, Stage::Finish);
    assert_eq!(run.next_task(), Task::Finish);
    let mut last = TrainingRun::new(Schedule::new(7, 0, 7, usize::MAX, 0, 256), usize::MAX);
    assert_eq!(last.next_task(), Task::Train(usize::MAX));
    last.done();
    assert_eq!(last.next_task(), Task::Finish);
}

#[test]
fn the_lowest_loss_is_the_best() {
    let bits = |x: f32| x.to_bits();
    assert!(is_improvement(None, bits(f32::NAN)));
    assert!(is_improvement(Some(bits(2.0)), bits(1.5)));
    assert!(is_improvement(Some(bits(0.5)), bits(-0.5)));
    assert!(is_improvement(Some(bits(f32::INFINITY)), bits(9.0)));
    assert!(!is_improvement(Some(bits(1.5)), bits(1.5)));
    assert!(!is_improvement(Some(bits(0.0)), bits(-0.0)));
    assert!(!is_improvement(Some(bits(1.5)), bits(f32::NAN)));
    assert!(!is_improvement(Some(bits(f32::NAN)), bits(1.5)));
}
