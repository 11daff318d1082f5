use crate::compiler::instruction::InstructionId;
use crate::compiler::load::{Ir, load_error, load_panics};
use crate::compiler::sorted_set::{SortedSet, ByteKeyed, keys_of};
use crate::compiler::{CompilerSettings, Parser};
use crate::compiler::instruction::Instruction;
use crate::compiler::transform::cache::{cache_chain, up_to_caching};
use crate::compiler::transform::normalize::{normal_round, stage_path};
use crate::compiler::transform::dedup::{components_merged, resources_merged, trimmed};
use crate::compiler::transform::finish::{caches_below, known_name, names_passed_to};
use crate::compiler::transform::sort::sorted;
use vstd::prelude::*;

verus! {

/// The message of a normalization that did not settle within `u64::MAX`
/// rounds, which no parser that fits in memory reaches.
pub open spec fn unsettled_message() -> Seq<char> {
    "normalization did not settle"@
}

/// Why a grammar cannot be compiled.
#[derive(Debug)]
pub enum Error {
    /// Rules that can come back to themselves without consuming input, by
    /// name.
    LeftRecursive(SortedSet<String>),
    /// The intermediate representation could not be loaded.
    Load(String),
}

/// `b` is `a` with the expected set of each error instruction inferred.
pub(crate) open spec fn expecteds_inferred(a: &Parser, b: &Parser) -> bool {
    &&& b.wf()
    &&& b.start == a.start
    &&& b.series == a.series
    &&& b.labels == a.labels
    &&& b.debug_symbols == a.debug_symbols
    &&& b.size() == a.size()
    &&& forall|i: usize| #[trigger] b.has(i) == a.has(i)
    &&& forall|i: usize| #[trigger] a.has(i) ==> match a.ins(i) {
        Instruction::Error(target, named) => b.ins(i) matches Instruction::Error(t, e)
            && t == target && Parser::is_expected_of(a, b.expecteds.value(e.0), named.0),
        other => b.ins(i) == other,
    }
}

/// `b` is what normalizing `a` leaves: a whole parser with the same start
/// whose instructions are all reachable, reached from `a` by runs of the
/// stages of rewrites, and a normal form: every instruction it keeps is
/// settled under every stage of rewrites.
pub(crate) open spec fn normalized(a: &Parser, b: &Parser, settings: CompilerSettings) -> bool {
    &&& b.wf()
    &&& b.start == a.start
    &&& forall|i: usize| #[trigger] b.reachable(i) == b.has(i)
    &&& exists|path: Seq<Parser>| #[trigger] stage_path(path, settings) && path[0] == *a && path.last() == *b
    &&& exists|rounds: Seq<Parser>| #[trigger] normal_round(rounds, settings, b)
}

/// `b` is `a` with equal resources and instructions merged and what is
/// unused removed.
pub(crate) open spec fn deduplicated(a: &Parser, b: &Parser) -> bool {
    &&& b.wf()
    &&& exists|x: Parser, y: Parser| #[trigger] resources_merged(a, &x) && #[trigger] components_merged(&x, &y) && trimmed(&y, b)
}

/// `b` is `a` with cache instructions put in front of the instructions
/// that need them, handled in the reverse order of a walk; see
/// [`cache_chain`].
pub(crate) open spec fn caches_inserted(a: &Parser, b: &Parser) -> bool {
    &&& b.wf()
    &&& b.start == a.start
    &&& forall|i: usize| #[trigger] a.has(i) ==> b.has(i) && up_to_caching(a, b, a.ins(i), b.ins(i))
    &&& forall|i: usize| #[trigger] b.has(i) && !a.has(i) ==> (b.ins(i) matches Instruction::Cache(t, None) && a.has(t.0))
    &&& exists|order: Seq<InstructionId>, states: Seq<Parser>| #[trigger] cache_chain(a, order, states)
        && states.last() == *b
        && (forall|i: usize| a.reachable(i) <==> exists|k: int| 0 <= k < order.len() && #[trigger] order[k].0 == i)
}

/// `b` is `a` with its cache instructions numbered from zero.
pub(crate) open spec fn caches_numbered(a: &Parser, b: &Parser) -> bool {
    &&& b.wf()
    &&& b.start == a.start
    &&& forall|i: usize| #[trigger] b.has(i) == a.has(i)
    &&& forall|i: usize| #[trigger] a.has(i) ==> match a.ins(i) {
        Instruction::Cache(target, _) => b.ins(i) == Instruction::Cache(target, Some(caches_below(a, i as int) as usize)),
        other => b.ins(i) == other,
    }
}

/// `b` is `a` with the names of the instructions passed on to the unnamed
/// instructions they refer to.
pub(crate) open spec fn names_inferred(a: &Parser, b: &Parser) -> bool {
    &&& b.wf()
    &&& b.start == a.start
    &&& b.instructions == a.instructions
    &&& b.series == a.series
    &&& b.labels == a.labels
    &&& b.expecteds == a.expecteds
    &&& forall|i: usize| #[trigger] b.debug_symbols.has(i) == a.debug_symbols.has(i)
    &&& forall|i: usize, k: Seq<u8>| #[trigger] a.debug_symbols.has(i) && #[trigger] a.debug_symbols.value(i).names@.contains(k)
        ==> b.debug_symbols.value(i).names@.contains(k)
    &&& forall|i: usize| #[trigger] a.debug_symbols.has(i) && a.debug_symbols.value(i).names@.len() > 0
        ==> b.debug_symbols.value(i) == a.debug_symbols.value(i)
    &&& forall|i: usize, k: Seq<u8>| #[trigger] b.debug_symbols.has(i) && #[trigger] b.debug_symbols.value(i).names@.contains(k)
        ==> known_name(a, k)
    &&& forall|c: usize| a.reachable(c) && a.debug_symbols.value(c).names@.len() == 0 ==> #[trigger] names_passed_to(b, c)
}

/// `stages` are the parsers that the passes of the compiler make of its
/// first one, in turn: expected sets inferred, trimmed, sorted, normalized,
/// deduplicated, caches inserted where `settings` asks for them, caches
/// numbered, names inferred and sorted again.
pub(crate) open spec fn pass_chain(stages: Seq<Parser>, settings: CompilerSettings) -> bool {
    &&& stages.len() == 10
    &&& expecteds_inferred(&stages[0], &stages[1])
    &&& trimmed(&stages[1], &stages[2])
    &&& sorted(&stages[2], &stages[3])
    &&& normalized(&stages[3], &stages[4], settings)
    &&& deduplicated(&stages[4], &stages[5])
    &&& if settings.cache_insertion { caches_inserted(&stages[5], &stages[6]) } else { stages[6] == stages[5] }
    &&& caches_numbered(&stages[6], &stages[7])
    &&& names_inferred(&stages[7], &stages[8])
    &&& sorted(&stages[8], &stages[9])
}

impl Parser {
    /// `self` is what the passes of the compiler make of `loaded`; see
    /// [`pass_chain`].
    pub closed spec fn compiled_from(&self, loaded: &Parser, settings: CompilerSettings) -> bool {
        exists|stages: Seq<Parser>| #[trigger] pass_chain(stages, settings) && stages[0] == *loaded && stages[9] == *self
    }

    /// Some instruction is left recursive.
    pub closed spec fn has_left_recursion(&self) -> bool {
        exists|i: usize| #[trigger] self.left_recursive(i)
    }

    /// `name` is a rule name of a left recursive instruction.
    pub closed spec fn left_recursive_name(&self, name: Seq<u8>) -> bool {
        exists|i: usize| #[trigger] self.left_recursive(i) && self.debug_symbols.value(i).names@.contains(name)
    }

    /// Runs the passes of the compiler on a loaded parser.
    pub(crate) fn transform(&mut self, settings: CompilerSettings) -> (settled: bool)
        requires
            old(self).loaded_wf(),
            old(self).expecteds@.len() == 0,
        ensures
            final(self).wf(),
            final(self).start.0 == 0,
            forall|i: usize| i < final(self).size() ==> #[trigger] final(self).has(i),
            settled ==> final(self).compiled_from(old(self), settings),
    {
        let ghost p0 = *self;
        self.infer_expecteds();
        let ghost p1 = *self;
        self.trim();
        let ghost p2 = *self;
        self.sort();
        let ghost p3 = *self;
        let settled = self.normalize(settings);
        let ghost p4 = *self;
        self.deduplicate();
        let ghost p5 = *self;
        if settings.cache_insertion {
            self.insert_cache_points();
        }
        let ghost p6 = *self;
        self.assign_cache_ids();
        let ghost p7 = *self;
        self.infer_debug_symbols();
        let ghost p8 = *self;
        self.sort();
        proof {
            let stages = seq![p0, p1, p2, p3, p4, p5, p6, p7, p8, *self];
            assert(expecteds_inferred(&stages[0], &stages[1]));
            assert(trimmed(&stages[1], &stages[2]));
            assert(sorted(&stages[2], &stages[3]));
            if settled {
                assert(normalized(&stages[3], &stages[4], settings));
            }
            assert(deduplicated(&stages[4], &stages[5]));
            assert(caches_numbered(&stages[6], &stages[7]));
            assert(names_inferred(&stages[7], &stages[8]));
            assert(sorted(&stages[8], &stages[9]));
            if settled {
                assert(pass_chain(stages, settings));
            }
        }
        settled
    }

    /// Loads a grammar from its intermediate representation, checks it and
    /// compiles it; fails with the message of what is wrong with the
    /// representation, or with the names of the rules that are left
    /// recursive.
    pub fn load(ir: &Ir, settings: CompilerSettings) -> (result: Result<Parser, Error>)
        requires
            !load_panics(*ir),
        ensures
            load_error(*ir) matches Some(m) ==> (result matches Err(Error::Load(e)) && e@ == m),
            load_error(*ir) is None ==> (*ir matches Ir::Success { start, instructions, .. } && exists|p: Parser|
                #[trigger] p.loaded_from(start, instructions@) && (
                    if p.has_left_recursion() {
                        result matches Err(Error::LeftRecursive(names))
                            && forall|k: Seq<u8>| names@.contains(k) == p.left_recursive_name(k)
                    } else {
                        (result matches Ok(q) && q.wf() && q.start_id() == 0
                            && (forall|i: usize| i < q.size() ==> #[trigger] q.has(i))
                            && q.compiled_from(&p, settings))
                        || (result matches Err(Error::Load(m)) && m@ == unsettled_message())
                    })),
    {
        let mut parser = match Parser::load_ir(ir) {
            Ok(parser) => parser,
            Err(message) => return Err(Error::Load(message)),
        };
        let ghost loaded = parser;
        proof {
            if let Ir::Success { start, instructions, .. } = ir {
                parser.lemma_loaded_from(*start, instructions@);
            }
        }
        let errors = parser.validate();
        if errors.len() > 0 {
            let mut names: SortedSet<String> = SortedSet::new();
            let mut k: usize = 0;
            while k < errors.len()
                invariant
                    k <= errors@.len(),
                    parser.loaded_wf(),
                    forall|i: usize| parser.left_recursive(i) <==> exists|j: int| 0 <= j < errors@.len() && #[trigger] errors@[j].0 == i,
                    forall|key: Seq<u8>| names@.contains(key) <==> exists|j: int| 0 <= j < k
                        && parser.debug_symbols.value(#[trigger] errors@[j].0).names@.contains(key),
                decreases errors@.len() - k,
            {
                let id = errors[k];
                proof {
                    assert(parser.left_recursive(id.0));
                    assert(parser.debug_symbols.has(id.0));
                }
                let ghost before = names@;
                let merged = SortedSet::union(&names, &parser.debug_symbols.get(id).names);
                names = merged;
                proof {
                    assert forall|key: Seq<u8>| names@.contains(key) <==> exists|j: int| 0 <= j < k + 1
                        && parser.debug_symbols.value(#[trigger] errors@[j].0).names@.contains(key) by {
                        assert(errors@[k as int] == id);
                        if before.contains(key) {
                            let j = choose|j: int| 0 <= j < k && parser.debug_symbols.value(#[trigger] errors@[j].0).names@.contains(key);
                            assert(0 <= j < k + 1);
                        }
                        if exists|j: int| 0 <= j < k + 1 && parser.debug_symbols.value(#[trigger] errors@[j].0).names@.contains(key) {
                            let j = choose|j: int| 0 <= j < k + 1 && parser.debug_symbols.value(#[trigger] errors@[j].0).names@.contains(key);
                            if j < k {
                                assert(before.contains(key));
                            }
                        }
                    }
                }
                k += 1;
            }
            proof {
                assert(parser.has_left_recursion()) by {
                    assert(parser.left_recursive(errors@[0].0));
                }
                assert forall|key: Seq<u8>| names@.contains(key) == parser.left_recursive_name(key) by {
                    if names@.contains(key) {
                        let j = choose|j: int| 0 <= j < errors@.len() && parser.debug_symbols.value(#[trigger] errors@[j].0).names@.contains(key);
                        assert(parser.left_recursive(errors@[j].0));
                    }
                    if parser.left_recursive_name(key) {
                        let i = choose|i: usize| #[trigger] parser.left_recursive(i) && parser.debug_symbols.value(i).names@.contains(key);
                        let j = choose|j: int| 0 <= j < errors@.len() && #[trigger] errors@[j].0 == i;
                    }
                }
            }
            return Err(Error::LeftRecursive(names));
        }
        proof {
            assert(!parser.has_left_recursion()) by {
                if parser.has_left_recursion() {
                    let i = choose|i: usize| #[trigger] parser.left_recursive(i);
                    let j = choose|j: int| 0 <= j < errors@.len() && #[trigger] errors@[j].0 == i;
                }
            }
        }
        let settled = parser.transform(settings);
        if !settled {
            return Err(Error::Load(String::from_str("normalization did not settle")));
        }
        Ok(parser)
    }
}

} // verus!
