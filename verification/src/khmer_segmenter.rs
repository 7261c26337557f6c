//! The segmenter: normalisation, decoding, rewriting rules, merging of
//! unknowns, and the joining of the segments with a separator.

use crate::decoder::{decode, decode_table, path, trace_back};
use crate::kdict::KDict;
use crate::merger::{merge_unknown, merge_unknown_segments};
use crate::normalization::{khmer_normalize, normalize, slice_of};
use crate::rule_engine::{apply_rules, apply_to_bytes, RuleEngine};
use crate::segments::{aligned, seg_chars, tiles};
use crate::text::{at_boundary, lemma_chars_from_start};
use vstd::prelude::*;
use vstd::string::*;
use vstd::utf8::*;

verus! {

/// Which stages of the segmenter run.
#[derive(Clone, Copy, Debug)]
pub struct SegmenterConfig {
    /// Bring the text into canonical form first.
    pub enable_normalization: bool,
    /// Step over a dependent vowel that starts a cluster, at a high cost.
    pub enable_repair_mode: bool,
    /// Take a run of clusters with full stops as one segment.
    pub enable_acronym_detection: bool,
    /// Join neighbouring unknown segments.
    pub enable_unknown_merging: bool,
    /// Reserved; without effect.
    pub enable_frequency_costs: bool,
}

impl Default for SegmenterConfig {
    /// Every stage on.
    fn default() -> (r: Self)
        ensures
            r.enable_normalization,
            r.enable_repair_mode,
            r.enable_acronym_detection,
            r.enable_unknown_merging,
            r.enable_frequency_costs,
    {
        SegmenterConfig {
            enable_normalization: true,
            enable_repair_mode: true,
            enable_acronym_detection: true,
            enable_unknown_merging: true,
            enable_frequency_costs: true,
        }
    }
}

/// The characters of the first `k` segments, with `sep` between each two.
pub open spec fn joined(b: Seq<u8>, segs: Seq<(usize, usize)>, sep: Seq<char>, k: int) -> Seq<char>
    decreases k,
{
    if k <= 0 {
        Seq::empty()
    } else if k == 1 {
        seg_chars(b, segs[0])
    } else {
        joined(b, segs, sep, k - 1) + sep + seg_chars(b, segs[k - 1])
    }
}

/// The characters of all segments, with `sep` between each two.
pub open spec fn join(b: Seq<u8>, segs: Seq<(usize, usize)>, sep: Seq<char>) -> Seq<char> {
    joined(b, segs, sep, segs.len() as int)
}

/// The separator that a call asks for: the one given, else a zero-width
/// space.
pub open spec fn separator_chars(separator: Option<&str>) -> Seq<char> {
    match separator {
        Some(s) => s@,
        None => seq!['\u{200B}'],
    }
}

/// Joins the segments of `text` with `sep` between each two.
pub fn join_segments(text: &str, segments: &Vec<(usize, usize)>, sep: &str) -> (out: String)
    requires
        aligned(text.spec_bytes(), segments@),
    ensures
        out@ == join(text.spec_bytes(), segments@, sep@),
{
    let ghost b = text.spec_bytes();
    let mut out = String::new();
    let mut k: usize = 0;
    while k < segments.len()
        invariant
            0 <= k <= segments.len(),
            b == text.spec_bytes(),
            aligned(b, segments@),
            out@ == joined(b, segments@, sep@, k as int),
        decreases segments.len() - k,
    {
        let ghost before = out@;
        if k > 0 {
            out.append(sep);
        }
        let (start, end) = segments[k];
        out.append(slice_of(text, start, end));
        proof {
            if k == 0 {
                assert(out@ =~= seg_chars(b, segments@[0]));
            } else {
                assert(out@ =~= before + sep@ + seg_chars(b, segments@[k as int]));
            }
        }
        k += 1;
    }
    out
}

/// A segmenter: a dictionary, if one was loaded, and the stages to run.
pub struct KhmerSegmenter {
    kdict: Option<KDict>,
    rule_engine: RuleEngine,
    config: SegmenterConfig,
}

impl KhmerSegmenter {
    /// The dictionary, if there is one.
    pub closed spec fn dictionary(&self) -> Option<KDict> {
        self.kdict
    }

    /// The stages that run.
    pub closed spec fn config(&self) -> SegmenterConfig {
        self.config
    }

    /// A segmenter over a dictionary that is already loaded, or over none.
    pub fn new_with_dict(kdict: Option<KDict>, config: SegmenterConfig) -> (r: Self)
        ensures
            r.dictionary() == kdict,
            r.config() == config,
    {
        KhmerSegmenter { kdict, rule_engine: RuleEngine::new(), config }
    }

    /// The text that is segmented: the canonical form of `raw`, or `raw`
    /// itself where normalisation is off.
    pub open spec fn prepared(&self, raw: Seq<char>) -> Seq<char> {
        if self.config().enable_normalization {
            normalize(raw)
        } else {
            raw
        }
    }

    /// The segments of the prepared text `text`: the cheapest path through
    /// the decoder's table, after the rewriting rules and, where it is on,
    /// the merging of unknowns. `None` where there is nothing to segment,
    /// no dictionary, or no path to the end of the text.
    pub open spec fn segmentation(&self, text: Seq<char>) -> Option<Seq<(usize, usize)>> {
        let b = encode_utf8(text);
        let cfg = self.config();
        match self.dictionary() {
            None => None,
            Some(d) => {
                let dp = decode_table(
                    &d,
                    cfg.enable_repair_mode,
                    cfg.enable_acronym_detection,
                    b,
                );
                if text.len() == 0 || dp[b.len() as int].prev is None {
                    None
                } else {
                    let ruled = apply_rules(b, path(dp, b.len() as int));
                    if cfg.enable_unknown_merging {
                        Some(merge_unknown(&d, cfg.enable_acronym_detection, b, ruled))
                    } else {
                        Some(ruled)
                    }
                }
            },
        }
    }

    /// What `segment` returns for the text `raw` and the separator `sep`.
    pub open spec fn segmented(&self, raw: Seq<char>, sep: Seq<char>) -> Seq<char> {
        let text = self.prepared(raw);
        match self.segmentation(text) {
            Some(segs) => join(encode_utf8(text), segs, sep),
            None => text,
        }
    }

    /// Segments `raw_text` into words and returns it with `separator`
    /// between each two words; the separator is a zero-width space where
    /// none is given. Without a dictionary the prepared text comes back as
    /// it is. The words are pieces of the prepared text in their order:
    /// taking the separators out again gives the prepared text.
    pub fn segment(&self, raw_text: &str, separator: Option<&str>) -> (out: String)
        ensures
            out@ == self.segmented(raw_text@, separator_chars(separator)),
            self.segmented(raw_text@, Seq::empty()) == self.prepared(raw_text@),
            raw_text@.len() == 0 ==> out@.len() == 0,
    {
        let sep: &str = match separator {
            Some(s) => s,
            None => {
                proof {
                    reveal_strlit("\u{200B}");
                }
                assert("\u{200B}"@ =~= seq!['\u{200B}']);
                "\u{200B}"
            },
        };
        let text_owned: String = if self.config.enable_normalization {
            khmer_normalize(raw_text)
        } else {
            raw_text.to_owned()
        };
        let text: &str = text_owned.as_str();
        let b = text.as_bytes();
        let n = b.len();
        proof {
            lemma_chars_from_start(text@);
            crate::text::lemma_chars_from_len(b@, 0);
            crate::laws::lemma_segments_partition(*self, raw_text@);
            if raw_text@.len() == 0 {
                crate::normal_form::lemma_normalize_empty();
            }
        }
        if n == 0 {
            return text_owned;
        }
        let d: &KDict = match &self.kdict {
            Some(d) => d,
            None => {
                return text_owned;
            },
        };
        let dp = decode(d, self.config.enable_repair_mode, self.config.enable_acronym_detection, b);
        let mut segments = match trace_back(b, &dp) {
            Some(s) => s,
            None => {
                return text_owned;
            },
        };
        apply_to_bytes(b, &mut segments);
        if self.config.enable_unknown_merging {
            let merged = merge_unknown_segments(
                d,
                self.config.enable_acronym_detection,
                b,
                &segments,
            );
            proof {
                crate::laws::lemma_merge_keeps(
                    d,
                    self.config.enable_acronym_detection,
                    b@,
                    segments@,
                    0,
                );
            }
            segments = merged;
        }
        join_segments(text, &segments, sep)
    }
}

} // verus!
