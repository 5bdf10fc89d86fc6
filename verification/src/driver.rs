use vstd::prelude::*;

use crate::cache::TranslationCache;
use crate::fingerprint::{fingerprint, fingerprint_of};

verus! {

/// The state of a translation run, seen at the specification level:
/// the chunk texts to translate in order, the target language, how many
/// chunks are resolved, whether a remote request is outstanding, the
/// translations obtained so far, and the cache mapping.
#[verifier::ext_equal]
pub struct RunView {
    pub items: Seq<Seq<char>>,
    pub lang: Seq<char>,
    pub pos: int,
    pub awaiting: bool,
    pub outputs: Seq<Seq<char>>,
    pub cache: Map<Seq<char>, Seq<char>>,
}

impl RunView {
    /// A run state is well formed when it has one output per resolved
    /// chunk and a request can only be outstanding for an actual chunk.
    pub open spec fn wf(self) -> bool {
        &&& 0 <= self.pos <= self.items.len()
        &&& self.outputs.len() == self.pos
        &&& (self.awaiting ==> self.pos < self.items.len())
    }

    /// The cache key of the chunk at position `j`.
    pub open spec fn key_at(self, j: int) -> Seq<char> {
        fingerprint_of(self.items[j], self.lang)
    }
}

/// Resolves cache hits: chunks are taken in order and answered from the
/// cache for as long as their fingerprints are found there; the scan
/// stops at the first miss, or at the end of the chunks.
pub open spec fn advance(v: RunView) -> RunView
    decreases v.items.len() - v.pos,
    when 0 <= v.pos <= v.items.len()
{
    if v.pos >= v.items.len() {
        v
    } else if v.cache.contains_key(v.key_at(v.pos)) {
        advance(
            RunView { pos: v.pos + 1, outputs: v.outputs.push(v.cache[v.key_at(v.pos)]), ..v },
        )
    } else {
        v
    }
}

/// Resolves the chunk a request was outstanding for with the translation
/// the remote service returned: the translation becomes the chunk's
/// output, and is cached under the chunk's fingerprint unless it is
/// empty — an empty translation is never cached, so a later run retries
/// it.
pub open spec fn apply_answer(v: RunView, ans: Seq<char>) -> RunView {
    RunView {
        pos: v.pos + 1,
        awaiting: false,
        outputs: v.outputs.push(ans),
        cache: if ans.len() > 0 {
            v.cache.insert(v.key_at(v.pos), ans)
        } else {
            v.cache
        },
        ..v
    }
}

pub proof fn lemma_advance(v: RunView)
    requires
        v.wf(),
        !v.awaiting,
    ensures
        advance(v).wf(),
        advance(v).items == v.items,
        advance(v).lang == v.lang,
        advance(v).cache == v.cache,
        advance(v).awaiting == v.awaiting,
        v.pos <= advance(v).pos,
        forall|j: int| 0 <= j < v.pos ==> advance(v).outputs[j] == v.outputs[j],
        forall|j: int|
            v.pos <= j < advance(v).pos ==> v.cache.contains_key(#[trigger] v.key_at(j))
                && advance(v).outputs[j] == v.cache[v.key_at(j)],
        advance(v).pos < v.items.len() ==> !v.cache.contains_key(v.key_at(advance(v).pos)),
    decreases v.items.len() - v.pos,
{
    if v.pos >= v.items.len() {
    } else if v.cache.contains_key(v.key_at(v.pos)) {
        let v2 = RunView {
            pos: v.pos + 1,
            outputs: v.outputs.push(v.cache[v.key_at(v.pos)]),
            ..v
        };
        lemma_advance(v2);
        assert(advance(v) == advance(v2));
        assert forall|j: int| 0 <= j < v.pos implies advance(v).outputs[j] == v.outputs[j] by {
            assert(advance(v2).outputs[j] == v2.outputs[j]);
            assert(v2.outputs[j] == v.outputs[j]);
        }
        assert forall|j: int| v.pos <= j < advance(v).pos implies v.cache.contains_key(
            #[trigger] v.key_at(j),
        ) && advance(v).outputs[j] == v.cache[v.key_at(j)] by {
            if j == v.pos {
                assert(advance(v2).outputs[j] == v2.outputs[j]);
            } else {
                assert(v2.key_at(j) == v.key_at(j));
            }
        }
    } else {
    }
}

/// The outcome of driving a run until it stops: the state it reaches and
/// how many remote requests it made.
#[verifier::ext_equal]
pub struct RunOutcome {
    pub state: RunView,
    pub used: int,
}

/// A whole run as a function of its inputs: from state `v`, cache hits
/// are resolved in order; at each miss the next of `answers` resolves
/// the chunk, as one remote call would.  The run stops when every chunk
/// is resolved, or when the answers run out.
pub open spec fn run(v: RunView, answers: Seq<Seq<char>>) -> RunOutcome
    decreases v.items.len() - v.pos, answers.len(),
    when v.wf() && !v.awaiting
    via run_decreases
{
    let a = advance(v);
    if a.pos >= a.items.len() || answers.len() == 0 {
        RunOutcome { state: a, used: 0 }
    } else {
        let next = run(apply_answer(a, answers[0]), answers.drop_first());
        RunOutcome { state: next.state, used: next.used + 1 }
    }
}

#[via_fn]
proof fn run_decreases(v: RunView, answers: Seq<Seq<char>>) {
    lemma_advance(v);
}

/// Does `new` hold every binding of `old_m`, unchanged?
pub open spec fn cache_extends(new: Map<Seq<char>, Seq<char>>, old_m: Map<Seq<char>, Seq<char>>) -> bool {
    forall|k: Seq<char>| #![trigger old_m.dom().contains(k)]
        old_m.dom().contains(k) ==> new.dom().contains(k) && new[k] == old_m[k]
}

pub proof fn lemma_run_props(v: RunView, answers: Seq<Seq<char>>)
    requires
        v.wf(),
        !v.awaiting,
        forall|i: int| 0 <= i < answers.len() ==> #[trigger] answers[i].len() > 0,
    ensures
        run(v, answers).state.wf(),
        !run(v, answers).state.awaiting,
        run(v, answers).state.items == v.items,
        run(v, answers).state.lang == v.lang,
        v.pos <= run(v, answers).state.pos <= v.items.len(),
        0 <= run(v, answers).used <= answers.len(),
        run(v, answers).state.pos < v.items.len() ==> run(v, answers).used == answers.len(),
        forall|j: int| 0 <= j < v.pos ==> run(v, answers).state.outputs[j] == v.outputs[j],
        cache_extends(run(v, answers).state.cache, v.cache),
        forall|j: int|
            v.pos <= j < run(v, answers).state.pos ==> run(v, answers).state.cache.contains_key(
                #[trigger] v.key_at(j),
            ) && run(v, answers).state.outputs[j] == run(v, answers).state.cache[v.key_at(j)],
    decreases v.items.len() - v.pos, answers.len(),
{
    lemma_advance(v);
    let a = advance(v);
    let o = run(v, answers);
    if a.pos >= a.items.len() || answers.len() == 0 {
        assert(o.state == a);
        assert(cache_extends(o.state.cache, v.cache));
        assert forall|j: int| v.pos <= j < o.state.pos implies o.state.cache.contains_key(
            #[trigger] v.key_at(j),
        ) && o.state.outputs[j] == o.state.cache[v.key_at(j)] by {
            assert(v.cache.contains_key(v.key_at(j)));
            assert(a.outputs[j] == v.cache[v.key_at(j)]);
        }
    } else {
        let ans = answers[0];
        let v2 = apply_answer(a, ans);
        assert forall|i: int| 0 <= i < answers.drop_first().len() implies #[trigger] answers.drop_first()[i].len()
            > 0 by {
            assert(answers.drop_first()[i] == answers[i + 1]);
        }
        lemma_run_props(v2, answers.drop_first());
        let o2 = run(v2, answers.drop_first());
        assert(o.state == o2.state);
        assert(o.used == o2.used + 1);
        assert(v2.key_at(a.pos) == v.key_at(a.pos));
        assert(v2.cache == a.cache.insert(v.key_at(a.pos), ans));
        assert forall|k: Seq<char>| #![trigger v.cache.dom().contains(k)]
            v.cache.dom().contains(k) implies o.state.cache.dom().contains(k)
            && o.state.cache[k] == v.cache[k] by {
            assert(answers[0].len() > 0);
            assert(!v.cache.contains_key(v.key_at(a.pos)));
            assert(v2.cache.contains_key(k) && v2.cache[k] == v.cache[k]);
            assert(o2.state.cache.contains_key(k) && o2.state.cache[k] == v2.cache[k]);
        }
        assert(cache_extends(o.state.cache, v.cache));
        assert forall|j: int| 0 <= j < v.pos implies o.state.outputs[j] == v.outputs[j] by {
            assert(o.state.outputs[j] == v2.outputs[j]);
            assert(v2.outputs[j] == a.outputs[j]);
        }
        assert forall|j: int| v.pos <= j < o.state.pos implies o.state.cache.contains_key(
            #[trigger] v.key_at(j),
        ) && o.state.outputs[j] == o.state.cache[v.key_at(j)] by {
            if j < a.pos {
                assert(v.cache.contains_key(v.key_at(j)));
                assert(a.outputs[j] == v.cache[v.key_at(j)]);
                assert(v2.outputs[j] == a.outputs[j]);
                assert(o.state.outputs[j] == v2.outputs[j]);
                assert(v2.cache.contains_key(v.key_at(j)) && v2.cache[v.key_at(j)] == v.cache[v.key_at(j)]);
                assert(o.state.cache.contains_key(v.key_at(j)) && o.state.cache[v.key_at(j)]
                    == v2.cache[v.key_at(j)]);
            } else if j == a.pos {
                assert(ans.len() > 0);
                assert(v2.outputs[j] == ans);
                assert(v2.cache.contains_key(v.key_at(j)) && v2.cache[v.key_at(j)] == ans);
                assert(o.state.outputs[j] == v2.outputs[j]);
                assert(o.state.cache.contains_key(v.key_at(j)) && o.state.cache[v.key_at(j)]
                    == v2.cache[v.key_at(j)]);
            } else {
                assert(v2.key_at(j) == v.key_at(j));
                assert(o.state.cache.contains_key(v2.key_at(j)) && o.state.outputs[j]
                    == o.state.cache[v2.key_at(j)]);
            }
        }
    }
}

/// Warm-cache idempotence: when a run over some chunks completes, and
/// none of the translations it was given was empty, running the driver
/// again over the same chunks with the cache the first run produced
/// issues no remote request at all and yields the same translation for
/// every chunk.
pub proof fn lemma_warm_rerun(v: RunView, answers: Seq<Seq<char>>)
    requires
        v.wf(),
        !v.awaiting,
        v.pos == 0,
        v.outputs.len() == 0,
        forall|i: int| 0 <= i < answers.len() ==> #[trigger] answers[i].len() > 0,
        run(v, answers).state.pos == v.items.len(),
    ensures
        ({
            let o1 = run(v, answers);
            let v2 = RunView {
                items: v.items,
                lang: v.lang,
                pos: 0,
                awaiting: false,
                outputs: Seq::empty(),
                cache: o1.state.cache,
            };
            let o2 = run(v2, Seq::empty());
            &&& o2.used == 0
            &&& o2.state.pos == v.items.len()
            &&& o2.state.outputs == o1.state.outputs
            &&& o2.state.cache == o1.state.cache
        }),
{
    lemma_run_props(v, answers);
    let o1 = run(v, answers);
    let v2 = RunView {
        items: v.items,
        lang: v.lang,
        pos: 0,
        awaiting: false,
        outputs: Seq::empty(),
        cache: o1.state.cache,
    };
    lemma_advance(v2);
    let a2 = advance(v2);
    assert forall|j: int| 0 <= j < v.items.len() implies v2.cache.contains_key(
        #[trigger] v2.key_at(j),
    ) by {
        assert(v2.key_at(j) == v.key_at(j));
        assert(o1.state.cache.contains_key(v.key_at(j)));
    }
    if a2.pos < v2.items.len() {
        assert(!v2.cache.contains_key(v2.key_at(a2.pos)));
        assert(false);
    }
    let o2 = run(v2, Seq::empty());
    assert(o2.state == a2);
    assert(o2.used == 0);
    assert forall|j: int| 0 <= j < v.items.len() implies a2.outputs[j] == o1.state.outputs[j] by {
        assert(a2.outputs[j] == v2.cache[v2.key_at(j)]);
        assert(v2.key_at(j) == v.key_at(j));
        assert(o1.state.outputs[j] == o1.state.cache[v.key_at(j)]);
    }
    assert(a2.outputs.len() == a2.pos);
    assert(o1.state.outputs.len() == o1.state.pos);
    assert(a2.outputs =~= o1.state.outputs);
}

/// One step of the run as the caller sees it: either the machine needs
/// the given chunk translated, or every chunk is resolved.
pub enum RunStep {
    Need(String),
    Done,
}

/// The translation run over the chunks of a document tree.  The machine
/// resolves cache hits by itself; at each miss it hands out the chunk
/// text and waits for the translation, which the caller obtains from the
/// remote service and supplies back.
pub struct ChunkRun {
    items: Vec<String>,
    lang: String,
    pos: usize,
    awaiting: bool,
    outputs: Vec<String>,
    cache: TranslationCache,
}

impl View for ChunkRun {
    type V = RunView;

    closed spec fn view(&self) -> RunView {
        RunView {
            items: self.items.deep_view(),
            lang: self.lang@,
            pos: self.pos as int,
            awaiting: self.awaiting,
            outputs: self.outputs.deep_view(),
            cache: self.cache@,
        }
    }
}

impl ChunkRun {
    /// Starts a run over the given chunk texts, with a target language
    /// and a loaded cache.
    pub fn new(items: Vec<String>, lang: String, cache: TranslationCache) -> (r: ChunkRun)
        ensures
            r@ == (RunView {
                items: items.deep_view(),
                lang: lang@,
                pos: 0,
                awaiting: false,
                outputs: Seq::empty(),
                cache: cache@,
            }),
            r@.wf(),
    {
        let ghost iv = items.deep_view();
        let ghost lv = lang@;
        let ghost cv = cache@;
        let r = ChunkRun { items, lang, pos: 0, awaiting: false, outputs: Vec::new(), cache };
        proof {
            assert(r@.outputs =~= Seq::<Seq<char>>::empty());
            assert(r@ =~= (RunView {
                items: iv,
                lang: lv,
                pos: 0,
                awaiting: false,
                outputs: Seq::empty(),
                cache: cv,
            }));
        }
        r
    }

    /// Resolves cache hits in order and reports what is next: the first
    /// chunk whose fingerprint the cache does not hold, as a request to
    /// translate it, or the end of the run when every chunk is resolved.
    pub fn step(&mut self) -> (r: RunStep)
        requires
            old(self)@.wf(),
            !old(self)@.awaiting,
        ensures
            final(self)@.wf(),
            ({
                let a = advance(old(self)@);
                match r {
                    RunStep::Need(t) => {
                        &&& a.pos < a.items.len()
                        &&& t@ == a.items[a.pos]
                        &&& final(self)@ == (RunView { awaiting: true, ..a })
                    },
                    RunStep::Done => a.pos == a.items.len() && final(self)@ == a,
                }
            }),
    {
        while self.pos < self.items.len()
            invariant
                self@.wf(),
                !self@.awaiting,
                advance(self@) == advance(old(self)@),
            decreases self@.items.len() - self@.pos,
        {
            let ghost prev = self@;
            proof {
                assert(prev.pos < prev.items.len());
            }
            let key = fingerprint(self.items[self.pos].as_str(), self.lang.as_str());
            proof {
                assert(self.items@[self.pos as int]@ == prev.items[prev.pos]) by {
                    assert(self.items.deep_view()[self.pos as int] == self.items@[self.pos as int].deep_view());
                }
                assert(key@ == prev.key_at(prev.pos));
            }
            let cached: Option<String> = match self.cache.get(&key) {
                Some(v) => Some(v.clone()),
                None => None,
            };
            match cached {
                Some(v) => {
                    let ghost vv = v@;
                    proof {
                        assert(prev.cache.contains_key(prev.key_at(prev.pos)));
                        assert(vv == prev.cache[prev.key_at(prev.pos)]);
                    }
                    self.outputs.push(v);
                    self.pos = self.pos + 1;
                    proof {
                        assert forall|i2: int| 0 <= i2 < self.outputs.deep_view().len() implies self.outputs.deep_view()[i2]
                            == prev.outputs.push(vv)[i2] by {
                            assert(self.outputs.deep_view()[i2] == self.outputs@[i2].deep_view());
                        }
                        assert(self.outputs.deep_view() =~= prev.outputs.push(vv));
                        assert(self@ =~= (RunView {
                            pos: prev.pos + 1,
                            outputs: prev.outputs.push(prev.cache[prev.key_at(prev.pos)]),
                            ..prev
                        }));
                        assert(advance(prev) == advance(self@));
                    }
                },
                None => {
                    proof {
                        assert(!prev.cache.contains_key(prev.key_at(prev.pos)));
                        assert(advance(prev) == prev);
                    }
                    self.awaiting = true;
                    let t = self.items[self.pos].clone();
                    proof {
                        assert(self@ =~= (RunView { awaiting: true, ..prev }));
                    }
                    return RunStep::Need(t);
                },
            }
        }
        proof {
            assert(advance(self@) == self@);
        }
        RunStep::Done
    }

    /// Supplies the translation for the chunk the machine asked for.
    pub fn supply(&mut self, answer: String)
        requires
            old(self)@.wf(),
            old(self)@.awaiting,
        ensures
            final(self)@ == apply_answer(old(self)@, answer@),
            final(self)@.wf(),
    {
        let ghost prev = self@;
        let ghost av = answer@;
        let n = self.items.len();
        proof {
            assert(self.pos < n);
        }
        let key = fingerprint(self.items[self.pos].as_str(), self.lang.as_str());
        proof {
            assert(self.items@[self.pos as int]@ == prev.items[prev.pos]) by {
                assert(self.items.deep_view()[self.pos as int] == self.items@[self.pos as int].deep_view());
            }
            assert(key@ == prev.key_at(prev.pos));
        }
        self.cache.put(key, answer.clone());
        self.outputs.push(answer);
        self.pos = self.pos + 1;
        self.awaiting = false;
        proof {
            assert forall|i2: int| 0 <= i2 < self.outputs.deep_view().len() implies self.outputs.deep_view()[i2]
                == prev.outputs.push(av)[i2] by {
                assert(self.outputs.deep_view()[i2] == self.outputs@[i2].deep_view());
            }
            assert(self.outputs.deep_view() =~= prev.outputs.push(av));
            assert(self@ =~= apply_answer(prev, av));
        }
    }

    /// Ends the run, handing back the translated text of every chunk, in
    /// chunk order, and the cache as the run left it.
    pub fn into_parts(self) -> (r: (Vec<String>, TranslationCache))
        ensures
            r.0.deep_view() == self@.outputs,
            r.1@ == self@.cache,
    {
        (self.outputs, self.cache)
    }
}

} // verus!
