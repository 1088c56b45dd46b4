//! How text is generated token by token.
//!
//! Running the model and drawing a token from what it returns is done outside. A
//! `Generation` says what to run next and takes the token that was drawn.

use vstd::prelude::*;

verus! {

/// The start of the last `max_len` of `len` tokens.
pub open spec fn window_start(len: int, max_len: int) -> int {
    if len > max_len {
        len - max_len
    } else {
        0
    }
}

/// The last `max_len` tokens.
pub fn context_window(ids: &[usize], max_len: usize) -> (r: &[usize])
    ensures
        r@ == ids@.skip(window_start(ids@.len() as int, max_len as int)),
{
    let n: usize = ids.len();
    let start: usize = if n > max_len {
        n - max_len
    } else {
        0
    };
    let r: &[usize] = vstd::slice::slice_subrange(ids, start, n);
    assert(r@ =~= ids@.skip(start as int));
    r
}

/// What is to be run next.
#[derive(Clone, Copy, Debug, PartialEq, Eq, Structural)]
pub enum Action {
    /// Run the token to fill the cache.
    Feed(usize),
    /// Run the token and draw the next one from what the model returns.
    Step(usize),
    /// Run all tokens from this place on, without a cache, and draw the next one.
    Window(usize),
    /// Nothing.
    Stop,
}

/// A text that is being generated.
pub struct Generation {
    ids: Vec<usize>,
    prompt_len: usize,
    start: usize,
    fed: usize,
    remaining: usize,
    max_len: usize,
    eos_id: usize,
    cached: bool,
    stopped: bool,
}

/// What a `Generation` stands for.
#[verifier::ext_equal]
pub struct Progress {
    /// The prompt and the tokens drawn so far.
    pub ids: Seq<usize>,
    /// The number of tokens of the prompt.
    pub prompt_len: int,
    /// The number of tokens that were run through the cache.
    pub fed: int,
    /// The number of tokens that may still be drawn.
    pub remaining: int,
    /// The number of tokens that the model can see.
    pub max_len: int,
    /// The token at which the text ends.
    pub eos_id: usize,
    /// The tokens are run one by one through a cache.
    pub cached: bool,
    /// The end of the text was drawn.
    pub stopped: bool,
}

impl Progress {
    /// The start of what the model sees of the prompt.
    pub open spec fn start(self) -> int {
        window_start(self.prompt_len, self.max_len)
    }

    /// The tokens of the prompt are still to be run through the cache, but for the
    /// last.
    pub open spec fn filling(self) -> bool {
        self.cached && self.fed < self.prompt_len - self.start() - 1
    }

    /// What is to be run next.
    pub open spec fn action(self) -> Action {
        if self.filling() {
            Action::Feed(self.ids[self.start() + self.fed])
        } else if self.stopped || self.remaining == 0 {
            Action::Stop
        } else if self.cached {
            if self.fed >= self.max_len {
                Action::Stop
            } else {
                Action::Step(self.ids.last())
            }
        } else {
            Action::Window(window_start(self.ids.len() as int, self.max_len) as usize)
        }
    }

    /// After the token to fill the cache was run.
    pub open spec fn after_feed(self) -> Self {
        Progress { fed: self.fed + 1, ..self }
    }

    /// After the token `id` was drawn.
    pub open spec fn after_draw(self, id: usize) -> Self {
        Progress {
            ids: if id == self.eos_id {
                self.ids
            } else {
                self.ids.push(id)
            },
            fed: if self.cached {
                self.fed + 1
            } else {
                self.fed
            },
            remaining: self.remaining - 1,
            stopped: id == self.eos_id,
            ..self
        }
    }

    /// What holds at every moment.
    pub open spec fn wf(self) -> bool {
        &&& self.prompt_len <= self.ids.len()
        &&& 0 <= self.fed
        &&& 0 <= self.remaining
        &&& 0 <= self.prompt_len
        &&& 0 <= self.max_len
        &&& self.ids.len() <= usize::MAX
        &&& self.cached || self.remaining > 0 ==> self.prompt_len > 0 && self.max_len > 0
        &&& self.cached ==> self.fed <= self.max_len
        &&& self.cached && !self.filling() ==> self.fed == self.ids.len() - self.start() - 1
            + (if self.stopped {
            1int
        } else {
            0
        })
        &&& self.filling() ==> self.ids.len() == self.prompt_len && !self.stopped
    }
}

impl View for Generation {
    type V = Progress;

    closed spec fn view(&self) -> Progress {
        Progress {
            ids: self.ids@,
            prompt_len: self.prompt_len as int,
            fed: self.fed as int,
            remaining: self.remaining as int,
            max_len: self.max_len as int,
            eos_id: self.eos_id,
            cached: self.cached,
            stopped: self.stopped,
        }
    }
}

impl Generation {
    /// The numbers fit together.
    pub closed spec fn wf(&self) -> bool {
        &&& self@.wf()
        &&& self.start == self@.start()
    }

    /// A text that starts with the given prompt and has at most `max_new` more
    /// tokens.
    pub fn new(
        prompt: Vec<usize>,
        max_new: usize,
        max_len: usize,
        eos_id: usize,
        cached: bool,
    ) -> (r: Self)
        requires
            cached || max_new > 0 ==> prompt@.len() > 0 && max_len > 0,
        ensures
            r.wf(),
            r@ == (Progress {
                ids: prompt@,
                prompt_len: prompt@.len() as int,
                fed: 0,
                remaining: max_new as int,
                max_len: max_len as int,
                eos_id,
                cached,
                stopped: false,
            }),
    {
        let prompt_len: usize = prompt.len();
        let start: usize = if prompt_len > max_len {
            prompt_len - max_len
        } else {
            0
        };
        Generation {
            ids: prompt,
            prompt_len,
            start,
            fed: 0,
            remaining: max_new,
            max_len,
            eos_id,
            cached,
            stopped: false,
        }
    }

    /// What is to be run next.
    pub fn next_action(&self) -> (r: Action)
        requires
            self.wf(),
        ensures
            r == self@.action(),
    {
        if self.cached && self.fed < self.prompt_len - self.start - 1 {
            Action::Feed(self.ids[self.start + self.fed])
        } else if self.stopped || self.remaining == 0 {
            Action::Stop
        } else if self.cached {
            if self.fed >= self.max_len {
                Action::Stop
            } else {
                Action::Step(self.ids[self.ids.len() - 1])
            }
        } else {
            let n: usize = self.ids.len();
            Action::Window(
                if n > self.max_len {
                    n - self.max_len
                } else {
                    0
                },
            )
        }
    }

    /// The token to fill the cache was run.
    pub fn fed(&mut self)
        requires
            old(self).wf(),
            old(self)@.action() is Feed,
        ensures
            final(self).wf(),
            final(self)@ == old(self)@.after_feed(),
    {
        self.fed = self.fed + 1;
    }

    /// The token `id` was drawn.
    pub fn drawn(&mut self, id: usize)
        requires
            old(self).wf(),
            old(self)@.action() is Step || old(self)@.action() is Window,
        ensures
            final(self).wf(),
            final(self)@ == old(self)@.after_draw(id),
    {
        if self.cached {
            self.fed = self.fed + 1;
        }
        self.remaining = self.remaining - 1;
        if id == self.eos_id {
            self.stopped = true;
        } else {
            self.ids.push(id);
            let len: usize = self.ids.len();
            assert(len == self@.ids.len());
        }
    }

    /// The prompt and the tokens drawn so far.
    pub fn ids(&self) -> (r: &[usize])
        ensures
            r@ == self@.ids,
    {
        self.ids.as_slice()
    }
}

/// A token is run through the cache only while there is room for it in a cache
/// for `max_len` tokens.
pub proof fn law_the_cache_has_room(p: Progress)
    requires
        p.wf(),
        p.cached,
        p.action() is Feed || p.action() is Step,
    ensures
        0 <= p.fed < p.max_len,
{
}

/// The token that is run at a position of the cache is the one that stands there
/// in what the model sees of the text.
pub proof fn law_the_cache_follows_the_text(p: Progress)
    requires
        p.wf(),
        p.cached,
        p.action() is Feed || p.action() is Step,
    ensures
        0 <= p.start() + p.fed < p.ids.len(),
        p.action() is Feed ==> p.action() == Action::Feed(p.ids[p.start() + p.fed]),
        p.action() is Step ==> p.action() == Action::Step(p.ids[p.start() + p.fed]),
{
}

/// As long as the text fits into what the model can see, drawing a token with a
/// cache and without one sees the same tokens: all of them.
pub proof fn law_cached_and_uncached_see_the_same(cached: Progress, uncached: Progress)
    requires
        cached.wf(),
        uncached.wf(),
        cached.cached,
        !uncached.cached,
        cached.ids == uncached.ids,
        cached.max_len == uncached.max_len,
        cached.ids.len() <= cached.max_len,
        cached.action() is Step,
        uncached.action() is Window,
    ensures
        cached.start() == 0,
        cached.fed + 1 == cached.ids.len(),
        uncached.action() == Action::Window(0),
{
}

/// Drawing a token keeps the prompt and all tokens before, adds at most one token,
/// and never adds the end of the text.
pub proof fn law_drawing_only_adds(p: Progress, id: usize)
    ensures
        p.ids.is_prefix_of(p.after_draw(id).ids),
        p.after_draw(id).ids.len() <= p.ids.len() + 1,
        p.after_draw(id).ids.len() > p.ids.len() ==> p.after_draw(id).ids.last() != p.eos_id,
        p.after_feed().ids == p.ids,
{
}

/// Every run brings the generation nearer to its end.
pub proof fn law_generation_ends(p: Progress, id: usize)
    requires
        p.wf(),
    ensures
        p.action() is Feed ==> p.prompt_len - p.start() - p.after_feed().fed < p.prompt_len
            - p.start() - p.fed && p.after_feed().remaining == p.remaining,
        p.action() is Step || p.action() is Window ==> 0 <= p.after_draw(id).remaining
            < p.remaining,
        p.action() is Step || p.action() is Window ==> (id == p.eos_id ==> p.after_draw(
            id,
        ).action() is Stop),
{
}

/// The ids that a repetition penalty applies to: those of the text that are in the
/// vocabulary, each once.
pub fn penalized_ids(ids: &[usize], vocab_size: usize) -> (r: Vec<usize>)
    ensures
        r@.no_duplicates(),
        forall|id: usize| #[trigger] r@.contains(id) <==> ids@.contains(id) && id < vocab_size,
{
    let n: usize = ids.len();
    let mut r: Vec<usize> = Vec::new();
    let mut i: usize = 0;
    while i < n
        invariant
            i <= n,
            n == ids@.len(),
            r@.no_duplicates(),
            forall|id: usize| #[trigger]
                r@.contains(id) <==> ids@.take(i as int).contains(id) && id < vocab_size,
        decreases n - i,
    {
        let id: usize = ids[i];
        let ghost before = r@;
        let mut seen: bool = false;
        let mut j: usize = 0;
        while j < r.len()
            invariant
                j <= r@.len(),
                r@ == before,
                seen == r@.take(j as int).contains(id),
            decreases r@.len() - j,
        {
            proof {
                assert(r@.take(j + 1) =~= r@.take(j as int).push(r@[j as int]));
                if r@.take(j as int).contains(id) {
                    let k = choose|k: int| 0 <= k < j && r@.take(j as int)[k] == id;
                    assert(r@.take(j + 1)[k] == id);
                }
                if r@[j as int] == id {
                    assert(r@.take(j + 1)[j as int] == id);
                }
            }
            if r[j] == id {
                seen = true;
            }
            j += 1;
        }
        assert(r@.take(j as int) =~= r@);
        if id < vocab_size && !seen {
            r.push(id);
        }
        proof {
            assert(ids@.take(i + 1) =~= ids@.take(i as int).push(id));
            assert forall|other: usize| #[trigger]
                r@.contains(other) <==> ids@.take(i + 1).contains(other) && other < vocab_size by {
                if ids@.take(i as int).contains(other) {
                    let k = choose|k: int| 0 <= k < i && ids@.take(i as int)[k] == other;
                    assert(ids@.take(i + 1)[k] == other);
                }
                assert(ids@.take(i + 1)[i as int] == id);
                if before.contains(other) {
                    let k = choose|k: int| 0 <= k < before.len() && before[k] == other;
                    assert(r@[k] == other);
                }
                if id < vocab_size && !seen {
                    assert(r@[r@.len() - 1] == id);
                }
                assert(before.contains(other) <==> ids@.take(i as int).contains(other) && other
                    < vocab_size);
            }
        }
        i += 1;
    }
    assert(ids@.take(n as int) =~= ids@);
    r
}

} // verus!
