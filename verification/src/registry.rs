//! Name-keyed registry of chunking algorithms.
//!
//! A mapping from stable algorithm names to algorithm values, populated
//! once at startup and then read. Registering a name again replaces the
//! earlier entry: last write wins.

use vstd::prelude::*;

use crate::chunk::Chunk;
use crate::config::ChunkConfig;
use crate::fixed_size::FixedSizeChunker;
use crate::heading::HeadingChunker;
use crate::markdown::MarkdownChunker;
use crate::paragraph::ParagraphChunker;
use crate::recursive::RecursiveChunker;
use crate::sentence::SentenceChunker;
use crate::sliding_window::SlidingWindowChunker;
use crate::traits::ChunkAlgorithm;

verus! {

/// Any of the built-in chunking strategies, as one registrable value.
pub enum Algorithm {
    FixedSize(FixedSizeChunker),
    SlidingWindow(SlidingWindowChunker),
    Sentence(SentenceChunker),
    Paragraph(ParagraphChunker),
    Heading(HeadingChunker),
    Markdown(MarkdownChunker),
    Recursive(RecursiveChunker),
}

/// The registry name of an algorithm.
pub open spec fn alg_name(a: Algorithm) -> Seq<char> {
    match a {
        Algorithm::FixedSize(_) => "fixed_size"@,
        Algorithm::SlidingWindow(_) => "sliding_window"@,
        Algorithm::Sentence(_) => "sentence"@,
        Algorithm::Paragraph(_) => "paragraph"@,
        Algorithm::Heading(_) => "heading"@,
        Algorithm::Markdown(_) => "markdown"@,
        Algorithm::Recursive(_) => "recursive"@,
    }
}

impl ChunkAlgorithm for Algorithm {
    /// Dispatch to the held strategy: the output meets that strategy's
    /// own full contract.
    fn chunk(&self, text: &str, config: &ChunkConfig) -> (r: Vec<Chunk>)
        ensures
            match *self {
                Algorithm::FixedSize(_) => crate::fixed_size::fixed_output(
                    text@,
                    config.max_size as int,
                    r@,
                ),
                Algorithm::SlidingWindow(_) => crate::sliding_window::sw_output(
                    text@,
                    config.max_size as int,
                    config.overlap as int,
                    r@,
                ),
                Algorithm::Sentence(_) => crate::sentence::sentence_output(
                    text@,
                    config.sentence_detector,
                    config.max_size as int,
                    r@,
                ),
                Algorithm::Paragraph(_) => crate::paragraph::paragraph_output(
                    text@,
                    config.max_size as int,
                    r@,
                ),
                Algorithm::Heading(h) => crate::heading::heading_output(
                    text@,
                    h.levels@,
                    config.max_size as int,
                    r@,
                ),
                Algorithm::Markdown(_) => crate::markdown::markdown_output(
                    text@,
                    config.max_size as int,
                    r@,
                ),
                Algorithm::Recursive(_) => crate::recursive::recursive_output(
                    text@,
                    config.sentence_detector,
                    config.max_size as int,
                    r@,
                ),
            },
    {
        match self {
            Algorithm::FixedSize(a) => a.chunk(text, config),
            Algorithm::SlidingWindow(a) => a.chunk(text, config),
            Algorithm::Sentence(a) => a.chunk(text, config),
            Algorithm::Paragraph(a) => a.chunk(text, config),
            Algorithm::Heading(a) => a.chunk(text, config),
            Algorithm::Markdown(a) => a.chunk(text, config),
            Algorithm::Recursive(a) => a.chunk(text, config),
        }
    }

    fn name(&self) -> (r: &str)
        ensures
            r@ == alg_name(*self),
    {
        match self {
            Algorithm::FixedSize(_) => "fixed_size",
            Algorithm::SlidingWindow(_) => "sliding_window",
            Algorithm::Sentence(_) => "sentence",
            Algorithm::Paragraph(_) => "paragraph",
            Algorithm::Heading(_) => "heading",
            Algorithm::Markdown(_) => "markdown",
            Algorithm::Recursive(_) => "recursive",
        }
    }
}

/// Central registry of chunking algorithms, keyed by name.
pub struct AlgorithmRegistry {
    algorithms: Vec<(String, Algorithm)>,
}

impl AlgorithmRegistry {
    /// The registry's entries, in registration order.
    pub closed spec fn entries(&self) -> Seq<(String, Algorithm)> {
        self.algorithms@
    }

    /// Entries are keyed uniquely, each under its algorithm's name.
    pub open spec fn wf(&self) -> bool {
        &&& forall|i: int, j: int|
            0 <= i < j < self.entries().len() ==> (#[trigger] self.entries()[i]).0@ != (
            #[trigger] self.entries()[j]).0@
        &&& forall|i: int|
            0 <= i < self.entries().len() ==> (#[trigger] self.entries()[i]).0@ == alg_name(
                self.entries()[i].1,
            )
    }

    /// A registry holding the four elementary strategies.
    pub fn new() -> (r: Self)
        ensures
            r.wf(),
            r.entries().len() == 4,
            r.entries()[0].0@ == "fixed_size"@ && r.entries()[0].1 is FixedSize,
            r.entries()[1].0@ == "sliding_window"@ && r.entries()[1].1 is SlidingWindow,
            r.entries()[2].0@ == "sentence"@ && r.entries()[2].1 is Sentence,
            r.entries()[3].0@ == "paragraph"@ && r.entries()[3].1 is Paragraph,
    {
        proof {
            reveal_strlit("fixed_size");
            reveal_strlit("sliding_window");
            reveal_strlit("sentence");
            reveal_strlit("paragraph");
        }
        let mut registry = AlgorithmRegistry { algorithms: Vec::new() };
        proof {
            assert(registry.entries() =~= Seq::<(String, Algorithm)>::empty());
            assert(registry.wf());
        }
        registry.register(Algorithm::FixedSize(FixedSizeChunker));
        proof {
            assert(registry.entries().len() == 1);
            assert(registry.entries()[0].0@ == "fixed_size"@);
            assert(registry.entries()[0].1 is FixedSize);
        }
        registry.register(Algorithm::SlidingWindow(SlidingWindowChunker));
        proof {
            assert(registry.entries().len() == 2);
            assert(registry.entries()[0].0@ == "fixed_size"@ && registry.entries()[0].1
                is FixedSize);
            assert(registry.entries()[1].0@ == "sliding_window"@ && registry.entries()[1].1
                is SlidingWindow);
        }
        proof {
            assert forall|j: int| 0 <= j < registry.entries().len() implies (
            #[trigger] registry.entries()[j]).0@ != "sentence"@ by {
                assert(registry.entries()[j].0@.len() != "sentence"@.len());
            }
        }
        registry.register(Algorithm::Sentence(SentenceChunker));
        proof {
            assert(registry.entries().len() == 3);
            assert(registry.entries()[0].0@ == "fixed_size"@ && registry.entries()[0].1
                is FixedSize);
            assert(registry.entries()[1].0@ == "sliding_window"@ && registry.entries()[1].1
                is SlidingWindow);
            assert(registry.entries()[2].0@ == "sentence"@ && registry.entries()[2].1 is Sentence);
        }
        proof {
            assert forall|j: int| 0 <= j < registry.entries().len() implies (
            #[trigger] registry.entries()[j]).0@ != "paragraph"@ by {
                assert(registry.entries()[j].0@.len() != "paragraph"@.len());
            }
        }
        registry.register(Algorithm::Paragraph(ParagraphChunker));
        proof {
            assert(registry.entries().len() == 4);
        }
        registry
    }

    /// Register an algorithm under its name; an entry already holding
    /// that name is replaced.
    pub fn register(&mut self, algorithm: Algorithm)
        requires
            old(self).wf(),
        ensures
            final(self).wf(),
            (exists|j: int|
                0 <= j < old(self).entries().len() && (#[trigger] old(self).entries()[j]).0@
                    == alg_name(algorithm)) ==> exists|j: int|
                {
                    &&& 0 <= j < old(self).entries().len()
                    &&& (#[trigger] old(self).entries()[j]).0@ == alg_name(algorithm)
                    &&& final(self).entries() =~= old(self).entries().remove(j).push(
                        (final(self).entries().last().0, algorithm),
                    )
                },
            (forall|j: int|
                0 <= j < old(self).entries().len() ==> (#[trigger] old(self).entries()[j]).0@
                    != alg_name(algorithm)) ==> final(self).entries() =~= old(
                self,
            ).entries().push((final(self).entries().last().0, algorithm)),
            final(self).entries().len() > 0 && final(self).entries().last().0@ == alg_name(
                algorithm,
            ) && final(self).entries().last().1 == algorithm,
    {
        let name = String::from_str(algorithm.name());
        let mut j: usize = 0;
        let mut found = false;
        let ghost old_entries = self.entries();
        loop
            invariant_except_break
                j <= old_entries.len(),
                !found,
                self.entries() == old_entries,
                forall|t: int| 0 <= t < j ==> (#[trigger] old_entries[t]).0@ != name@,
            invariant
                name@ == alg_name(algorithm),
                old(self).wf(),
                old_entries == old(self).entries(),
            ensures
                if found {
                    &&& j < old_entries.len()
                    &&& old_entries[j as int].0@ == name@
                    &&& self.entries() == old_entries.remove(j as int)
                } else {
                    &&& self.entries() == old_entries
                    &&& forall|t: int|
                        0 <= t < old_entries.len() ==> (#[trigger] old_entries[t]).0@ != name@
                },
            decreases old_entries.len() - j,
        {
            if j >= self.algorithms.len() {
                break;
            }
            if self.algorithms[j].0 == name {
                proof {
                    assert(old_entries[j as int].0@ == name@);
                }
                let _ = self.algorithms.remove(j);
                found = true;
                break;
            }
            j = j + 1;
        }
        self.algorithms.push((name, algorithm));
        proof {
            if found {
                let oj = j as int;
                assert(old_entries[oj].0@ == alg_name(algorithm));
                assert(self.entries() =~= old_entries.remove(oj).push(
                    (self.entries().last().0, algorithm),
                ));
                // a removed list keeps every other key, so keys stay unique
                assert forall|i1: int, i2: int|
                    0 <= i1 < i2 < self.entries().len() implies (#[trigger] self.entries()[i1]).0@
                    != (#[trigger] self.entries()[i2]).0@ by {
                    lemma_remove_keys(old_entries, oj, i1);
                    if i2 < self.entries().len() - 1 {
                        lemma_remove_keys(old_entries, oj, i2);
                    }
                }
            } else {
                assert forall|i1: int, i2: int|
                    0 <= i1 < i2 < self.entries().len() implies (#[trigger] self.entries()[i1]).0@
                    != (#[trigger] self.entries()[i2]).0@ by {}
            }
        }
    }

    /// Look an algorithm up by name.
    pub fn get(&self, name: &str) -> (r: Option<&Algorithm>)
        ensures
            match r {
                Some(a) => exists|j: int|
                    0 <= j < self.entries().len() && (#[trigger] self.entries()[j]).0@ == name@
                        && self.entries()[j].1 == *a,
                None => forall|j: int|
                    0 <= j < self.entries().len() ==> (#[trigger] self.entries()[j]).0@ != name@,
            },
    {
        let key = String::from_str(name);
        let mut j: usize = 0;
        while j < self.algorithms.len()
            invariant
                j <= self.entries().len(),
                key@ == name@,
                forall|t: int| 0 <= t < j ==> (#[trigger] self.entries()[t]).0@ != name@,
            decreases self.entries().len() - j,
        {
            if self.algorithms[j].0 == key {
                return Some(&self.algorithms[j].1);
            }
            j = j + 1;
        }
        None
    }

    /// The registered names, in registration order.
    pub fn list(&self) -> (r: Vec<String>)
        ensures
            r@.len() == self.entries().len(),
            forall|k: int|
                0 <= k < r@.len() ==> (#[trigger] r@[k])@ == self.entries()[k].0@,
    {
        let mut out: Vec<String> = Vec::new();
        let mut j: usize = 0;
        while j < self.algorithms.len()
            invariant
                j <= self.entries().len(),
                out@.len() == j,
                forall|k: int| 0 <= k < j ==> (#[trigger] out@[k])@ == self.entries()[k].0@,
            decreases self.entries().len() - j,
        {
            out.push(self.algorithms[j].0.clone());
            j = j + 1;
        }
        out
    }
}

impl Default for AlgorithmRegistry {
    /// The same registry `new` builds.
    fn default() -> (r: Self)
        ensures
            r.wf(),
            r.entries().len() == 4,
    {
        AlgorithmRegistry::new()
    }
}

/// Removing one entry keeps the others, shifted.
proof fn lemma_remove_keys(es: Seq<(String, Algorithm)>, j: int, i: int)
    requires
        0 <= j < es.len(),
        0 <= i < es.len() - 1,
    ensures
        es.remove(j)[i] == if i < j {
            es[i]
        } else {
            es[i + 1]
        },
{
}

} // verus!
