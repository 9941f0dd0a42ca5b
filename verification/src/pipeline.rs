//! The full pipeline: synthesis of the raw data against synthesis of the parse,
//! and the smaller program wins.

use vstd::prelude::*;
use crate::judge::{Answers, Judge};
use crate::lz::{parse_restores_the_input, LzAnalysis, LzEncoder};
use crate::machine::MAX_OUTPUT_BYTES;
use crate::sched::{
    class_of, classify_with_data, has_settings, is_compressed_format, is_standard, measures,
    start_of, synthesis_for, synthesizer_for, ClassMetrics, DataClass,
};
use crate::synth::draft::{with_parses, Draft};
use crate::synth::guarantees::{raw_synthesis_is_determined, synthesis_is_determined};
use crate::synth::program::SynthProgram;
use crate::synth::rewrite::{parsed, PatternSynthesizer};
use crate::synth::scan::looks_like_json;
use crate::synth::token::capped;

verus! {

/// Compresses an input along both paths.
pub struct Pipeline {
    lz: LzEncoder,
}

/// What the pipeline makes of an input, with the sizes of the parse and of the
/// program, and whether the raw path won.
pub struct PipelineResult {
    pub data_class: DataClass,
    pub lz_len: usize,
    pub synth_len: usize,
    pub used_hybrid_path: bool,
    pub program: SynthProgram,
    pub metrics: ClassMetrics,
}

/// The draft comes from the raw data: synthesized, and the literals left over
/// parsed.
pub open spec fn is_hybrid(
    p: PatternSynthesizer,
    lz: LzEncoder,
    data: Seq<u8>,
    b: Draft,
    answers: Answers,
) -> bool {
    exists|raw: Draft| #[trigger]
        p.is_raw_result(data, raw, answers) && b.toks == with_parses(raw.toks, &lz) && b.defs
            == raw.defs && b.next == raw.next
}

/// Of the two drafts one comes from the raw data and one from the parse, and the
/// first is the smaller. Of two equally small ones the raw data's wins.
pub open spec fn wins(
    p: PatternSynthesizer,
    lz: LzEncoder,
    data: Seq<u8>,
    b: Draft,
    other: Draft,
    hybrid: bool,
    answers: Answers,
) -> bool {
    if hybrid {
        &&& is_hybrid(p, lz, data, b, answers)
        &&& p.is_result(start_of(lz, data), other, answers)
        &&& capped(b.size()) <= capped(other.size())
    } else {
        &&& p.is_result(start_of(lz, data), b, answers)
        &&& is_hybrid(p, lz, data, other, answers)
        &&& capped(b.size()) < capped(other.size())
    }
}

/// The draft is what the pipeline makes of the data when it takes it for `class`:
/// the smaller of the two syntheses, or the parse where there is none.
#[verifier::opaque]
pub open spec fn is_piped(
    class: DataClass,
    lz: LzEncoder,
    data: Seq<u8>,
    b: Draft,
    hybrid: bool,
    answers: Answers,
) -> bool {
    match synthesis_for(class) {
        Some(s) => exists|p: PatternSynthesizer, other: Draft|
            has_settings(p, s) && #[trigger] wins(p, lz, data, b, other, hybrid, answers),
        None => b == start_of(lz, data) && !hybrid,
    }
}

/// The pipeline takes the smaller of the two syntheses, and the one of the raw
/// data where they are equally small. No synthesis along either path is smaller
/// than what it takes.
pub proof fn the_pipeline_takes_the_smaller(
    class: DataClass,
    lz: LzEncoder,
    data: Seq<u8>,
    b: Draft,
    hybrid: bool,
    answers: Answers,
    p: PatternSynthesizer,
    h: Draft,
    l: Draft,
)
    requires
        is_piped(class, lz, data, b, hybrid, answers),
        synthesis_for(class) is Some,
        has_settings(p, synthesis_for(class)->0),
        is_hybrid(p, lz, data, h, answers),
        p.is_result(start_of(lz, data), l, answers),
    ensures
        hybrid == (capped(h.size()) <= capped(l.size())),
        b == (if hybrid {
            h
        } else {
            l
        }),
        capped(b.size()) <= capped(h.size()),
        capped(b.size()) <= capped(l.size()),
{
    reveal(is_piped);
    let s = synthesis_for(class)->0;
    let (q, other) = choose|q: PatternSynthesizer, other: Draft|
        has_settings(q, s) && #[trigger] wins(q, lz, data, b, other, hybrid, answers);
    assert(p == q);
    let (h2, l2) = if hybrid {
        (b, other)
    } else {
        (other, b)
    };
    synthesis_is_determined(&p, start_of(lz, data), l, l2, answers);
    let x = choose|raw: Draft| #[trigger]
        p.is_raw_result(data, raw, answers) && h.toks == with_parses(raw.toks, &lz) && h.defs
            == raw.defs && h.next == raw.next;
    let y = choose|raw: Draft| #[trigger]
        p.is_raw_result(data, raw, answers) && h2.toks == with_parses(raw.toks, &lz) && h2.defs
            == raw.defs && h2.next == raw.next;
    raw_synthesis_is_determined(&p, data, x, y, answers);
    assert(h == h2);
}

/// What the pipeline makes of data of a kind is determined by the data and the
/// answers.
pub proof fn the_pipeline_is_determined(
    class: DataClass,
    lz: LzEncoder,
    data: Seq<u8>,
    b: Draft,
    b_hybrid: bool,
    c: Draft,
    c_hybrid: bool,
    answers: Answers,
)
    requires
        is_piped(class, lz, data, b, b_hybrid, answers),
        is_piped(class, lz, data, c, c_hybrid, answers),
    ensures
        b == c,
        b_hybrid == c_hybrid,
{
    reveal(is_piped);
    if let Some(s) = synthesis_for(class) {
        let (p, other) = choose|p: PatternSynthesizer, other: Draft|
            has_settings(p, s) && #[trigger] wins(p, lz, data, b, other, b_hybrid, answers);
        let (h, l) = if b_hybrid {
            (b, other)
        } else {
            (other, b)
        };
        the_pipeline_takes_the_smaller(class, lz, data, b, b_hybrid, answers, p, h, l);
        the_pipeline_takes_the_smaller(class, lz, data, c, c_hybrid, answers, p, h, l);
    }
}

/// Returns the smaller of two programs, the first if they are equally small, and
/// whether it is the first.
pub fn smaller_program(hybrid: SynthProgram, lz_first: SynthProgram) -> (r: (SynthProgram, bool))
    ensures
        r.1 == (capped(hybrid.total_size()) <= capped(lz_first.total_size())),
        r.0 == (if r.1 {
            hybrid
        } else {
            lz_first
        }),
{
    if hybrid.total_encoded_len() <= lz_first.total_encoded_len() {
        (hybrid, true)
    } else {
        (lz_first, false)
    }
}

impl Default for Pipeline {
    fn default() -> (p: Pipeline)
        ensures
            is_standard(p.encoder()),
    {
        Pipeline { lz: LzEncoder::new() }
    }
}

impl Pipeline {
    #[verifier::type_invariant]
    closed spec fn inv(self) -> bool {
        is_standard(self.lz)
    }

    /// The parse settings.
    pub closed spec fn encoder(&self) -> LzEncoder {
        self.lz
    }

    /// Returns a pipeline with the standard parse settings.
    pub fn new() -> (p: Pipeline)
        ensures
            is_standard(p.encoder()),
    {
        Pipeline::default()
    }

    /// Compresses `data` into a program, and returns it with the kind of data.
    pub fn compress<J: Judge>(&self, data: &[u8], judge: &J) -> (r: (SynthProgram, DataClass))
        requires
            data@.len() + 4 <= usize::MAX,
        ensures
            is_standard(self.encoder()),
            data@.len() <= MAX_OUTPUT_BYTES ==> r.0.restores(data@),
            r.0.ids_ok(),
            r.0.input_len == data@.len(),
            r.0.consensus@ == vstd::map::Map::<Seq<u8>, Seq<u8>>::empty(),
            exists|hybrid: bool| #[trigger]
                is_piped(r.1, self.encoder(), data@, r.0.draft(), hybrid, judge.answers()),
            is_compressed_format(data@) ==> r.1 == DataClass::AlreadyCompressed,
            !is_compressed_format(data@) ==> exists|m: ClassMetrics| #[trigger]
                measures(m, data@, self.encoder().parse(data@), data@.len(), judge.answers()) && r.1
                    == class_of(m, looks_like_json(data@)),
    {
        let r: PipelineResult = self.compress_verbose(data, judge);
        (r.program, r.data_class)
    }

    /// Compresses `data` and reports the sizes, the metrics and the path taken.
    pub fn compress_verbose<J: Judge>(&self, data: &[u8], judge: &J) -> (r: PipelineResult)
        requires
            data@.len() + 4 <= usize::MAX,
        ensures
            is_standard(self.encoder()),
            data@.len() <= MAX_OUTPUT_BYTES ==> r.program.restores(data@),
            r.program.ids_ok(),
            r.program.input_len == data@.len(),
            r.program.consensus@ == vstd::map::Map::<Seq<u8>, Seq<u8>>::empty(),
            is_piped(
                r.data_class,
                self.encoder(),
                data@,
                r.program.draft(),
                r.used_hybrid_path,
                judge.answers(),
            ),
            measures(
                r.metrics,
                data@,
                self.encoder().parse(data@),
                data@.len(),
                judge.answers(),
            ),
            r.data_class == (if is_compressed_format(data@) {
                DataClass::AlreadyCompressed
            } else {
                class_of(r.metrics, looks_like_json(data@))
            }),
            r.lz_len == crate::tokens::toks_bytes(
                start_of(self.encoder(), data@).toks,
            ).len(),
            r.synth_len == capped(r.program.total_size()),
    {
        proof {
            use_type_invariant(self);
            reveal(is_piped);
            if data@.len() <= MAX_OUTPUT_BYTES {
                parse_restores_the_input(
                    &self.lz,
                    data@,
                    start_of(self.lz, data@).env(vstd::map::Map::<Seq<u8>, Seq<u8>>::empty()),
                );
            }
        }
        let analysis: LzAnalysis = self.lz.analyze(data);
        let metrics: ClassMetrics = ClassMetrics::compute(data, &analysis, judge);
        let class: DataClass = classify_with_data(&metrics, data);
        let lz_len: usize = analysis.to_program().len();
        assert(parsed(&analysis) == start_of(self.lz, data@));
        let (program, used_hybrid_path) = match synthesizer_for(class) {
            None => {
                let prog: SynthProgram = SynthProgram::from_analysis(&analysis);
                assert(prog.draft() == start_of(self.lz, data@));
                (prog, false)
            },
            Some(synth) => {
                let hybrid: SynthProgram = synth.synthesize_hybrid(data, &self.lz, judge);
                let lz_first: SynthProgram = synth.synthesize(&analysis, judge);
                proof {
                    assert(has_settings(synth, synthesis_for(class)->0));
                    let raw = choose|raw: Draft| #[trigger]
                        synth.is_raw_result(data@, raw, judge.answers()) && hybrid.toks()
                            == with_parses(raw.toks, &self.lz) && hybrid.defs() == raw.defs
                            && hybrid.next_sub_id == raw.next;
                    assert(synth.is_raw_result(data@, raw, judge.answers()));
                    assert(is_hybrid(synth, self.lz, data@, hybrid.draft(), judge.answers()));
                }
                let ghost (h, l) = (hybrid.draft(), lz_first.draft());
                let won: (SynthProgram, bool) = smaller_program(hybrid, lz_first);
                assert(wins(
                    synth,
                    self.lz,
                    data@,
                    won.0.draft(),
                    if won.1 {
                        l
                    } else {
                        h
                    },
                    won.1,
                    judge.answers(),
                ));
                won
            },
        };
        let synth_len: usize = program.total_encoded_len();
        PipelineResult {
            data_class: class,
            lz_len,
            synth_len,
            used_hybrid_path,
            program,
            metrics,
        }
    }
}

} // verus!
