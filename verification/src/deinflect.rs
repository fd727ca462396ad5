//! The morphological deinflection engine: grammatical categories as bitmask
//! constants, rule normalization, and the breadth-first closure that undoes
//! suffix transformations to produce candidate base forms.

use crate::strutil::{
    clone_string_vec, replace_suffix, spec_ends_with, str_eq, str_ends_with, views_of,
};
use vstd::prelude::*;
use vstd::string::*;

verus! {

/// Ichidan verb.
pub const RULE_V1: u8 = 0x01;

/// Godan verb.
pub const RULE_V5: u8 = 0x02;

/// Suru verb.
pub const RULE_VS: u8 = 0x04;

/// Kuru verb.
pub const RULE_VK: u8 = 0x08;

/// Zuru verb.
pub const RULE_VZ: u8 = 0x10;

/// I-adjective.
pub const RULE_ADJ_I: u8 = 0x20;

/// Intermediate -iru ending, for progressive or perfect tense.
pub const RULE_IRU: u8 = 0x40;

/// Cap on the number of candidates one deinflection call may produce. The
/// closure over the rule set has no natural bound when the rule data is
/// cyclic, so growth beyond this cap is cut off rather than looped on.
pub const MAX_CANDIDATES: usize = 4096;

/// The bit assigned to a grammatical category name; zero for a name outside
/// the closed vocabulary.
pub open spec fn spec_category_bits(name: Seq<char>) -> u8 {
    if name == "v1"@ {
        RULE_V1
    } else if name == "v5"@ {
        RULE_V5
    } else if name == "vs"@ {
        RULE_VS
    } else if name == "vk"@ {
        RULE_VK
    } else if name == "vz"@ {
        RULE_VZ
    } else if name == "adj-i"@ {
        RULE_ADJ_I
    } else if name == "iru"@ {
        RULE_IRU
    } else {
        0
    }
}

/// Resolves one category name against the closed vocabulary.
pub fn category_bits(name: &str) -> (r: u8)
    ensures
        r == spec_category_bits(name@),
{
    if str_eq(name, "v1") {
        RULE_V1
    } else if str_eq(name, "v5") {
        RULE_V5
    } else if str_eq(name, "vs") {
        RULE_VS
    } else if str_eq(name, "vk") {
        RULE_VK
    } else if str_eq(name, "vz") {
        RULE_VZ
    } else if str_eq(name, "adj-i") {
        RULE_ADJ_I
    } else if str_eq(name, "iru") {
        RULE_IRU
    } else {
        0
    }
}

/// The union of the bits of all the named categories; unknown names
/// contribute nothing.
pub open spec fn spec_flags(names: Seq<Seq<char>>) -> u8
    decreases names.len(),
{
    if names.len() == 0 {
        0u8
    } else {
        spec_flags(names.drop_last()) | spec_category_bits(names.last())
    }
}

/// One rule variant as loaded from rule data: a suffix rewrite plus the
/// category names the current and the resulting form carry.
pub struct ReasonInfo {
    pub kana_in: String,
    pub kana_out: String,
    pub rules_in: Vec<String>,
    pub rules_out: Vec<String>,
}

/// The mathematical value of a [`ReasonInfo`].
pub struct ReasonInfoModel {
    pub kana_in: Seq<char>,
    pub kana_out: Seq<char>,
    pub rules_in: Seq<Seq<char>>,
    pub rules_out: Seq<Seq<char>>,
}

impl View for ReasonInfo {
    type V = ReasonInfoModel;

    open spec fn view(&self) -> ReasonInfoModel {
        ReasonInfoModel {
            kana_in: self.kana_in@,
            kana_out: self.kana_out@,
            rules_in: views_of(self.rules_in@),
            rules_out: views_of(self.rules_out@),
        }
    }
}

/// One rule variant with its category names resolved to bitmasks.
pub struct NormalizedReasonInfo {
    pub kana_in: String,
    pub kana_out: String,
    pub bits_in: u8,
    pub bits_out: u8,
}

/// The mathematical value of a [`NormalizedReasonInfo`].
pub struct RuleModel {
    pub kana_in: Seq<char>,
    pub kana_out: Seq<char>,
    pub bits_in: u8,
    pub bits_out: u8,
}

impl View for NormalizedReasonInfo {
    type V = RuleModel;

    open spec fn view(&self) -> RuleModel {
        RuleModel {
            kana_in: self.kana_in@,
            kana_out: self.kana_out@,
            bits_in: self.bits_in,
            bits_out: self.bits_out,
        }
    }
}

/// What normalization makes of one loaded rule variant.
pub open spec fn normalize_spec(ri: ReasonInfoModel) -> RuleModel {
    RuleModel {
        kana_in: ri.kana_in,
        kana_out: ri.kana_out,
        bits_in: spec_flags(ri.rules_in),
        bits_out: spec_flags(ri.rules_out),
    }
}

/// One deinflection candidate: a term, the category bitmask it is now
/// compatible with, and the reason labels applied, innermost first.
pub struct DeinflectResult {
    pub term: String,
    pub rules: u8,
    pub reasons: Vec<String>,
}

/// The mathematical value of a [`DeinflectResult`].
pub struct CandModel {
    pub term: Seq<char>,
    pub rules: u8,
    pub reasons: Seq<Seq<char>>,
}

impl View for DeinflectResult {
    type V = CandModel;

    open spec fn view(&self) -> CandModel {
        CandModel { term: self.term@, rules: self.rules, reasons: views_of(self.reasons@) }
    }
}

/// One reason group: a human-readable label over its rule variants.
pub struct GroupModel {
    pub label: Seq<char>,
    pub variants: Seq<RuleModel>,
}

/// A rule table: reason groups in load order, each holding normalized rule
/// variants.
pub struct Deinflector {
    pub normalized_reasons: Vec<(String, Vec<NormalizedReasonInfo>)>,
}

impl View for Deinflector {
    type V = Seq<GroupModel>;

    open spec fn view(&self) -> Seq<GroupModel> {
        self.normalized_reasons@.map_values(
            |p: (String, Vec<NormalizedReasonInfo>)|
                GroupModel {
                    label: p.0@,
                    variants: p.1@.map_values(|v: NormalizedReasonInfo| v@),
                },
        )
    }
}

/// The views of a sequence of candidates.
pub open spec fn cands_of(s: Seq<DeinflectResult>) -> Seq<CandModel> {
    s.map_values(|r: DeinflectResult| r@)
}

/// Whether a rule variant applies to a candidate: the candidate's category
/// bitmask is unconstrained or intersects the rule's input categories, the
/// term ends with the rule's input suffix, and the rewritten term would not
/// be empty.
pub open spec fn rule_matches(c: CandModel, r: RuleModel) -> bool {
    &&& c.rules == 0 || (c.rules & r.bits_in) != 0
    &&& spec_ends_with(c.term, r.kana_in)
    &&& c.term.len() - r.kana_in.len() + r.kana_out.len() > 0
}

/// The candidate a matching rule variant produces: the input suffix is
/// replaced, the output categories are taken over, and the reason label is
/// prepended as the innermost reason.
pub open spec fn apply_rule(label: Seq<char>, c: CandModel, r: RuleModel) -> CandModel {
    CandModel {
        term: c.term.subrange(0, c.term.len() - r.kana_in.len()) + r.kana_out,
        rules: r.bits_out,
        reasons: seq![label] + c.reasons,
    }
}

/// The zero-th candidate of every deinflection: the input word itself,
/// unconstrained, with no reasons applied.
pub open spec fn seed_candidate(word: Seq<char>) -> CandModel {
    CandModel { term: word, rules: 0u8, reasons: Seq::empty() }
}

/// Candidate `j` arises from some earlier candidate by some rule of the
/// table.
pub open spec fn sound_step(table: Seq<GroupModel>, out: Seq<CandModel>, j: int) -> bool {
    exists|i: int, g: int, v: int|
        {
            &&& 0 <= i < j && 0 <= g < table.len() && 0 <= v < table[g].variants.len()
            &&& rule_matches(out[i], #[trigger] table[g].variants[v])
            &&& out[j] == apply_rule(table[g].label, #[trigger] out[i], table[g].variants[v])
        }
}

/// Every rule application to one of the first `upto` candidates is itself
/// among the candidates.
pub open spec fn closure_complete(table: Seq<GroupModel>, out: Seq<CandModel>, upto: int) -> bool {
    forall|i: int, g: int, v: int|
        0 <= i < upto && 0 <= g < table.len() && 0 <= v < table[g].variants.len() && rule_matches(
            #[trigger] out[i],
            #[trigger] table[g].variants[v],
        ) ==> out.contains(apply_rule(table[g].label, out[i], table[g].variants[v]))
}

/// The full contract of deinflection: the input word is the zero-th
/// candidate, every further candidate is a sound rule application to an
/// earlier one, and, unless the candidate cap cut the closure off, every
/// rule application to a candidate is itself a candidate.
pub open spec fn deinflect_post(
    table: Seq<GroupModel>,
    word: Seq<char>,
    out: Seq<CandModel>,
) -> bool {
    &&& 1 <= out.len() <= MAX_CANDIDATES
    &&& out[0] == seed_candidate(word)
    &&& forall|j: int| 1 <= j < out.len() ==> sound_step(table, out, j)
    &&& (out.len() < MAX_CANDIDATES ==> closure_complete(table, out, out.len() as int))
}

/// Rule applications to one candidate, over all groups before `upto_g`, are
/// all among the candidates.
pub open spec fn cand_groups_done(
    table: Seq<GroupModel>,
    out: Seq<CandModel>,
    c: CandModel,
    upto_g: int,
) -> bool {
    forall|g: int, v: int|
        0 <= g < upto_g && 0 <= v < table[g].variants.len() && rule_matches(
            c,
            #[trigger] table[g].variants[v],
        ) ==> out.contains(apply_rule(table[g].label, c, table[g].variants[v]))
}

/// Rule applications to one candidate, within group `g` before variant
/// `upto_v`, are all among the candidates.
pub open spec fn cand_variants_done(
    table: Seq<GroupModel>,
    out: Seq<CandModel>,
    c: CandModel,
    g: int,
    upto_v: int,
) -> bool {
    forall|v: int|
        0 <= v < upto_v && rule_matches(c, #[trigger] table[g].variants[v]) ==> out.contains(
            apply_rule(table[g].label, c, table[g].variants[v]),
        )
}

pub proof fn lemma_cands_of_push(s: Seq<DeinflectResult>, x: DeinflectResult)
    ensures
        cands_of(s.push(x)) =~= cands_of(s).push(x@),
{
}

/// One rule application to an unconstrained, reason-free candidate — such
/// as a negative rule rewriting a suffix into a dictionary ending — yields
/// a term ending in the rule's output suffix, with exactly that one reason
/// recorded.
pub proof fn lemma_single_rule_application(label: Seq<char>, c: CandModel, r: RuleModel)
    requires
        c.reasons.len() == 0,
        rule_matches(c, r),
        r.kana_out.len() > 0,
    ensures
        spec_ends_with(apply_rule(label, c, r).term, r.kana_out),
        apply_rule(label, c, r).reasons.len() == 1,
        apply_rule(label, c, r).reasons[0] == label,
{
    let t = apply_rule(label, c, r).term;
    assert(t.subrange(t.len() - r.kana_out.len(), t.len() as int) =~= r.kana_out);
}

/// Builds a reason list with `label` prepended as the innermost reason.
fn prepend_reason(label: &String, rest: &Vec<String>) -> (r: Vec<String>)
    ensures
        views_of(r@) == seq![label@] + views_of(rest@),
{
    let mut r: Vec<String> = Vec::new();
    r.push(label.clone());
    for k in 0..rest.len()
        invariant
            r@.len() == 1 + k,
            r@[0]@ == label@,
            forall|j: int| 0 <= j < k ==> (#[trigger] r@[j + 1])@ == rest@[j]@,
    {
        r.push(rest[k].clone());
    }
    proof {
        assert forall|j: int| 0 <= j < views_of(r@).len() implies views_of(r@)[j] == (seq![label@]
            + views_of(rest@))[j] by {
            if j > 0 {
                assert(r@[(j - 1) + 1]@ == rest@[j - 1]@);
            }
        }
        assert(views_of(r@) =~= seq![label@] + views_of(rest@));
    }
    r
}

impl Deinflector {
        /// Folds a list of category names into one bitmask; names outside the
    /// closed vocabulary are silently dropped.
    pub fn rule_to_rule_flags(rules: &Vec<String>) -> (r: u8)
        ensures
            r == spec_flags(views_of(rules@)),
    {
        let mut value: u8 = 0;
        for i in 0..rules.len()
            invariant
                value == spec_flags(views_of(rules@.take(i as int))),
        {
            value = value | category_bits(rules[i].as_str());
            proof {
                assert(views_of(rules@.take(i + 1)).drop_last() =~= views_of(rules@.take(i as int)));
                assert(views_of(rules@.take(i + 1)).last() == rules@[i as int]@);
            }
        }
        proof {
            assert(rules@.take(rules@.len() as int) =~= rules@);
        }
        value
    }

    /// Builds a rule table from loaded rule data, resolving every category
    /// name list to its bitmask.
    pub fn new(reasons: Vec<(String, Vec<ReasonInfo>)>) -> (d: Deinflector)
        ensures
            d@.len() == reasons@.len(),
            forall|g: int|
                0 <= g < reasons@.len() ==> {
                    &&& (#[trigger] d@[g]).label == reasons@[g].0@
                    &&& d@[g].variants.len() == reasons@[g].1@.len()
                    &&& forall|v: int|
                        0 <= v < reasons@[g].1@.len() ==> #[trigger] d@[g].variants[v]
                            == normalize_spec(reasons@[g].1@[v]@)
                },
    {
        let normalized_reasons = Self::normalize_reasons(reasons);
        Deinflector { normalized_reasons }
    }

    /// Resolves the category names of every rule variant into bitmasks,
    /// keeping the reason groups and their order.
    pub fn normalize_reasons(reasons: Vec<(String, Vec<ReasonInfo>)>) -> (r: Vec<
        (String, Vec<NormalizedReasonInfo>),
    >)
        ensures
            r@.len() == reasons@.len(),
            forall|g: int|
                0 <= g < reasons@.len() ==> {
                    &&& (#[trigger] r@[g]).0@ == reasons@[g].0@
                    &&& r@[g].1@.len() == reasons@[g].1@.len()
                    &&& forall|v: int|
                        0 <= v < reasons@[g].1@.len() ==> (#[trigger] r@[g].1@[v])@
                            == normalize_spec(reasons@[g].1@[v]@)
                },
    {
        let mut r: Vec<(String, Vec<NormalizedReasonInfo>)> = Vec::new();
        for g in 0..reasons.len()
            invariant
                r@.len() == g,
                forall|g2: int|
                    0 <= g2 < g ==> {
                        &&& (#[trigger] r@[g2]).0@ == reasons@[g2].0@
                        &&& r@[g2].1@.len() == reasons@[g2].1@.len()
                        &&& forall|v: int|
                            0 <= v < reasons@[g2].1@.len() ==> (#[trigger] r@[g2].1@[v])@
                                == normalize_spec(reasons@[g2].1@[v]@)
                    },
        {
            let label = reasons[g].0.clone();
            let mut variants: Vec<NormalizedReasonInfo> = Vec::new();
            let nv = reasons[g].1.len();
            for v in 0..nv
                invariant
                    nv == reasons@[g as int].1@.len(),
                    g < reasons@.len(),
                    variants@.len() == v,
                    forall|v2: int|
                        0 <= v2 < v ==> (#[trigger] variants@[v2])@ == normalize_spec(
                            reasons@[g as int].1@[v2]@,
                        ),
            {
                let ri = &reasons[g].1[v];
                let bits_in = Self::rule_to_rule_flags(&ri.rules_in);
                let bits_out = Self::rule_to_rule_flags(&ri.rules_out);
                variants.push(
                    NormalizedReasonInfo {
                        kana_in: ri.kana_in.clone(),
                        kana_out: ri.kana_out.clone(),
                        bits_in,
                        bits_out,
                    },
                );
            }
            r.push((label, variants));
        }
        r
    }

    /// Produces every candidate base form reachable from `word` by undoing
    /// suffix transformations, breadth-first: the word itself first, then
    /// each rule application to an already-listed candidate, in discovery
    /// order. See [`deinflect_post`] for the exact contract.
    pub fn deinflect(&self, word: String) -> (results: Vec<DeinflectResult>)
        ensures
            deinflect_post(self@, word@, cands_of(results@)),
    {
        let ghost w: Seq<char> = word@;
        let mut results: Vec<DeinflectResult> = Vec::new();
        results.push(DeinflectResult { term: word, rules: 0, reasons: Vec::new() });
        proof {
            let c = cands_of(results@)[0];
            assert(c.term == w);
            assert(c.reasons =~= Seq::<Seq<char>>::empty());
            assert(c == seed_candidate(w));
        }
        let mut i: usize = 0;
        while i < results.len()
            invariant
                1 <= results@.len() <= MAX_CANDIDATES,
                i <= results@.len(),
                cands_of(results@).len() == results@.len(),
                cands_of(results@)[0] == seed_candidate(w),
                forall|j: int| 1 <= j < results@.len() ==> sound_step(self@, cands_of(results@), j),
                results@.len() < MAX_CANDIDATES ==> closure_complete(
                    self@,
                    cands_of(results@),
                    i as int,
                ),
            decreases MAX_CANDIDATES - i,
        {
            let curr_term: String = results[i].term.clone();
            let curr_rules: u8 = results[i].rules;
            let curr_reasons: Vec<String> = clone_string_vec(&results[i].reasons);
            let ghost curr: CandModel = cands_of(results@)[i as int];
            proof {
                assert(curr_term@ == curr.term);
                assert(curr_rules == curr.rules);
                assert(views_of(curr_reasons@) == curr.reasons);
            }
            let ngroups = self.normalized_reasons.len();
            for g in 0..ngroups
                invariant
                    ngroups == self@.len(),
                    i < results@.len(),
                    1 <= results@.len() <= MAX_CANDIDATES,
                    cands_of(results@).len() == results@.len(),
                    cands_of(results@)[0] == seed_candidate(w),
                    curr == cands_of(results@)[i as int],
                    curr_term@ == curr.term,
                    curr_rules == curr.rules,
                    views_of(curr_reasons@) == curr.reasons,
                    forall|j: int|
                        1 <= j < results@.len() ==> sound_step(self@, cands_of(results@), j),
                    results@.len() < MAX_CANDIDATES ==> closure_complete(
                        self@,
                        cands_of(results@),
                        i as int,
                    ),
                    results@.len() < MAX_CANDIDATES ==> cand_groups_done(
                        self@,
                        cands_of(results@),
                        curr,
                        g as int,
                    ),
            {
                let label: &String = &self.normalized_reasons[g].0;
                let nvars = self.normalized_reasons[g].1.len();
                proof {
                    assert(self@[g as int].label == label@);
                    assert(self@[g as int].variants.len() == nvars);
                }
                for v in 0..nvars
                    invariant
                        ngroups == self@.len(),
                        g < ngroups,
                        nvars == self@[g as int].variants.len(),
                        label@ == self@[g as int].label,
                        i < results@.len(),
                        1 <= results@.len() <= MAX_CANDIDATES,
                        cands_of(results@).len() == results@.len(),
                        cands_of(results@)[0] == seed_candidate(w),
                        curr == cands_of(results@)[i as int],
                        curr_term@ == curr.term,
                        curr_rules == curr.rules,
                        views_of(curr_reasons@) == curr.reasons,
                        forall|j: int|
                            1 <= j < results@.len() ==> sound_step(self@, cands_of(results@), j),
                        results@.len() < MAX_CANDIDATES ==> closure_complete(
                            self@,
                            cands_of(results@),
                            i as int,
                        ),
                        results@.len() < MAX_CANDIDATES ==> cand_groups_done(
                            self@,
                            cands_of(results@),
                            curr,
                            g as int,
                        ),
                        results@.len() < MAX_CANDIDATES ==> cand_variants_done(
                            self@,
                            cands_of(results@),
                            curr,
                            g as int,
                            v as int,
                        ),
                {
                    let variant = &self.normalized_reasons[g].1[v];
                    let ghost rule: RuleModel = self@[g as int].variants[v as int];
                    proof {
                        assert(variant@ == rule);
                    }
                    let category_ok = curr_rules == 0 || (curr_rules & variant.bits_in) != 0;
                    if category_ok && str_ends_with(curr_term.as_str(), variant.kana_in.as_str()) {
                        let n = curr_term.as_str().unicode_len();
                        let k = variant.kana_in.as_str().unicode_len();
                        let out_nonempty = n - k > 0 || !variant.kana_out.as_str().is_empty();
                        if out_nonempty {
                            proof {
                                assert(rule_matches(curr, rule));
                            }
                            if results.len() < MAX_CANDIDATES {
                                let new_term = replace_suffix(
                                    curr_term.as_str(),
                                    k,
                                    variant.kana_out.as_str(),
                                );
                                let new_reasons = prepend_reason(label, &curr_reasons);
                                let new_res = DeinflectResult {
                                    term: new_term,
                                    rules: variant.bits_out,
                                    reasons: new_reasons,
                                };
                                proof {
                                    assert(new_res@ == apply_rule(label@, curr, rule));
                                }
                                let ghost old_results = results@;
                                results.push(new_res);
                                proof {
                                    lemma_cands_of_push(old_results, new_res);
                                    let out_new = cands_of(results@);
                                    let out_old = cands_of(old_results);
                                    assert(forall|j: int|
                                        0 <= j < out_old.len() ==> out_new[j] == out_old[j]);
                                    assert(out_new[out_old.len() as int] == apply_rule(
                                        label@,
                                        curr,
                                        rule,
                                    ));
                                    // earlier sound steps carry over; the new
                                    // candidate is itself a sound step from i
                                    assert forall|j: int|
                                        1 <= j < out_new.len() implies sound_step(
                                        self@,
                                        out_new,
                                        j,
                                    ) by {
                                        if j < out_old.len() {
                                            assert(sound_step(self@, out_old, j));
                                            let (i0, g0, v0) = choose|i0: int, g0: int, v0: int|
                                                {
                                                    &&& 0 <= i0 < j && 0 <= g0 < self@.len() && 0
                                                        <= v0 < self@[g0].variants.len()
                                                    &&& rule_matches(
                                                        out_old[i0],
                                                        #[trigger] self@[g0].variants[v0],
                                                    )
                                                    &&& out_old[j] == apply_rule(
                                                        self@[g0].label,
                                                        #[trigger] out_old[i0],
                                                        self@[g0].variants[v0],
                                                    )
                                                };
                                            assert(rule_matches(
                                                out_new[i0],
                                                self@[g0].variants[v0],
                                            ));
                                            assert(out_new[j] == apply_rule(
                                                self@[g0].label,
                                                out_new[i0],
                                                self@[g0].variants[v0],
                                            ));
                                        } else {
                                            assert(rule_matches(
                                                out_new[i as int],
                                                self@[g as int].variants[v as int],
                                            ));
                                            assert(out_new[j] == apply_rule(
                                                self@[g as int].label,
                                                out_new[i as int],
                                                self@[g as int].variants[v as int],
                                            ));
                                        }
                                    }
                                    // containment is monotone under push
                                    assert forall|c0: CandModel| #[trigger]
                                        out_old.contains(c0) implies out_new.contains(c0) by {
                                        let idx = choose|idx: int|
                                            0 <= idx < out_old.len() && out_old[idx] == c0;
                                        assert(out_new[idx] == c0);
                                    }
                                    assert(out_new.contains(apply_rule(label@, curr, rule))) by {
                                        assert(out_new[out_old.len() as int] == apply_rule(
                                            label@,
                                            curr,
                                            rule,
                                        ));
                                    }
                                }
                            }
                            // when the cap is hit, the truncation-conditioned
                            // invariants hold vacuously from here on
                        }
                    }
                    proof {
                        if results@.len() < MAX_CANDIDATES {
                            assert(cand_variants_done(
                                self@,
                                cands_of(results@),
                                curr,
                                g as int,
                                v + 1,
                            ));
                        }
                    }
                }
                proof {
                    if results@.len() < MAX_CANDIDATES {
                        assert(cand_groups_done(self@, cands_of(results@), curr, g + 1));
                    }
                }
            }
            proof {
                if results@.len() < MAX_CANDIDATES {
                    assert(closure_complete(self@, cands_of(results@), i + 1));
                }
            }
            i = i + 1;
        }
        results
    }
}

} // verus!
