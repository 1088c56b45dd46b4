use transformer::generation::{context_window, Action, Generation};

/// Runs a generation with a model that knows only how many tokens it sees.
fn run(mut g: Generation, draw: &dyn Fn(&[usize]) -> usize) -> (Vec<usize>, usize) {
    let mut seen: Vec<usize> = Vec::new();
    let mut runs = 0;
    loop {
        match g.next_action() {
            Action::Feed(id) => {
                seen.push(id);
                runs += 1;
                g.fed();
            }
            Action::Step(id) => {
                seen.push(id);
                runs += 1;
                g.drawn(draw(&seen));
            }
            Action::Window(start) => {
                runs += 1;
                let next = draw(&g.ids()[start..]);
                g.drawn(next);
            }
            Action::Stop => return (g.ids().to_vec(), runs),
        }
    }
}

fn sum(ids: &[usize]) -> usize {
    ids.iter().sum::<usize>() % 10
}

#[test]
fn cached_and_uncached_texts_are_the_same() {
    let prompt = vec![1, 2, 3];
    let (cached, _) = run(Generation::new(prompt.clone(), 8, 32, usize::MAX, true), &sum);
    let (uncached, _) = run(Generation::new(prompt, 8, 32, usize::MAX, false), &sum);
    assert_eq!(cached, uncached);
    assert_eq!(cached.len(), 11);
    assert_eq!(cached, vec![1, 2, 3, 6, 2, 4, 8, 6, 2, 4, 8]);
}

#[test]
fn the_end_of_the_text_stops_and_is_not_kept() {
    let (ids, runs) = run(Generation::new(vec![1, 2, 3], 8, 32, 6, false), &sum);
    assert_eq!(ids, vec![1, 2, 3]);
    assert_eq!(runs, 1);
    let (ids, runs) = run(Generation::new(vec![1, 2, 3], 8, 32, 6, true), &sum);
    assert_eq!(ids, vec![1, 2, 3]);
    assert_eq!(runs, 3);
}

#[test]
fn a_full_cache_stops() {
    let (ids, runs) = run(Generation::new(vec![1, 2, 3], 100, 5, usize::MAX, true), &sum);
    assert_eq!(ids.len(), 6);
    assert_eq!(runs, 5);
}

#[test]
fn a_long_prompt_is_cut_to_its_end() {
    let mut g = Generation::new(vec![1, 2, 3, 4, 5], 2, 3, usize::MAX, true);
    assert_eq!(g.next_action(), Action::Feed(3));
    g.fed();
    assert_eq!(g.next_action(), Action::Feed(4));
    g.fed();
    assert_eq!(g.next_action(), Action::Step(5));
    g.drawn(7);
    assert_eq!(g.next_action(), Action::Stop);
    assert_eq!(g.ids(), &[1, 2, 3, 4, 5, 7]);
}

#[test]
fn without_a_cache_the_window_moves_on() {
    let mut g = Generation::new(vec![1, 2, 3], 3, 3, usize::MAX, false);
    assert_eq!(g.next_action(), Action::Window(0));
    g.drawn(4);
    assert_eq!(g.next_action(), Action::Window(1));
    g.drawn(5);
    assert_eq!(g.next_action(), Action::Window(2));
    g.drawn(6);
    assert_eq!(g.next_action(), Action::Stop);
}

#[test]
fn no_tokens_are_drawn_if_none_are_asked_for() {
    let g = Generation::new(vec![], 0, 4, usize::MAX, false);
    assert_eq!(g.next_action(), Action::Stop);
    let (ids, runs) = run(Generation::new(vec![1, 2], 0, 4, usize::MAX, true), &sum);
    assert_eq!(ids, vec![1, 2]);
    assert_eq!(runs, 1);
}

#[test]
fn the_context_is_the_end_of_the_text() {
    assert_eq!(context_window(&[1, 2, 3, 4], 2), &[3, 4]);
    assert_eq!(context_window(&[1, 2], 2), &[1, 2]);
    assert_eq!(context_window(&[1], 2), &[1]);
}
