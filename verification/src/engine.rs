//! The redaction engine: run each rule's pattern over the original input
//! text, assign or reuse a pseudonym per distinct matched value, and replace
//! every occurrence of each matched value in the accumulating output.

use vstd::prelude::*;
use crate::digits::dec_str;
use crate::rules::Rule;
use crate::rules::RuleModel;
use crate::rules::lemma_distinct_values_distinct_pseudonyms;
use crate::rules::lemma_lookup_push;
use crate::rules::lemma_rule_step_wf;
use crate::rules::lookup;
use crate::rules::rule_step;
use crate::rules::wf_model;
use crate::text::replace_all;
use crate::text::replace_all_spec;

verus! {

/// Whether `pattern` is a valid expression of the pattern syntax.
pub uninterp spec fn pattern_ok(pattern: Seq<char>) -> bool;

/// The successive non-overlapping, leftmost-first matches of `pattern` in
/// `text`: the matched substrings, in left-to-right order of occurrence.
pub uninterp spec fn matches_of(pattern: Seq<char>, text: Seq<char>) -> Seq<Seq<char>>;

/// Relies on `regex::Regex::new`, which returns an error exactly when the
/// pattern is not a valid expression, and on `regex::Regex::find_iter`, which
/// yields the successive non-overlapping, leftmost-first matches in `text`.
/// Both results depend on the pattern and the text alone.
#[verifier::external_body]
fn find_pattern_matches(pattern: &str, text: &str) -> (result: Option<Vec<String>>)
    ensures
        result is Some <==> pattern_ok(pattern@),
        result matches Some(found) ==> found.deep_view() == matches_of(pattern@, text@),
{
    match regex::Regex::new(pattern) {
        Ok(re) => Some(re.find_iter(text).map(|m| m.as_str().to_string()).collect()),
        Err(_) => None,
    }
}

/// A rule's pattern failed to compile: a configuration defect, carrying the
/// position of the offending rule in the sequence.
#[derive(Debug)]
pub struct PatternCompileError {
    pub rule_index: usize,
}

/// One rule's pass: fold its matches in order of occurrence, stepping the
/// rule's mapping on each matched value and replacing every occurrence of
/// that value in the accumulating output by its pseudonym.
pub open spec fn apply_rule(r: RuleModel, ms: Seq<Seq<char>>, acc: Seq<char>) -> (RuleModel, Seq<
    char,
>)
    decreases ms.len(),
{
    if ms.len() == 0 {
        (r, acc)
    } else {
        let (r1, p) = rule_step(r, ms[0]);
        apply_rule(r1, ms.drop_first(), replace_all_spec(acc, ms[0], p))
    }
}

/// The whole run: rules strictly in sequence order, each matched against the
/// original `text`, each replacement applied to the accumulating output.
/// Returns the rules' final states and the output text.
pub open spec fn redact_models(rs: Seq<RuleModel>, text: Seq<char>, acc: Seq<char>) -> (Seq<
    RuleModel,
>, Seq<char>)
    decreases rs.len(),
{
    if rs.len() == 0 {
        (rs, acc)
    } else {
        let (r1, acc1) = apply_rule(rs[0], matches_of(rs[0].pattern, text), acc);
        let (rest, accf) = redact_models(rs.drop_first(), text, acc1);
        (seq![r1] + rest, accf)
    }
}

/// The models of a sequence of rules.
pub open spec fn models_of(rs: Seq<Rule>) -> Seq<RuleModel> {
    rs.map_values(|r: Rule| r.model())
}

/// A rule's pass never rewrites its pattern or placeholder.
pub proof fn lemma_apply_rule_labels(r: RuleModel, ms: Seq<Seq<char>>, acc: Seq<char>)
    ensures
        apply_rule(r, ms, acc).0.pattern == r.pattern,
        apply_rule(r, ms, acc).0.placeholder == r.placeholder,
    decreases ms.len(),
{
    if ms.len() > 0 {
        let (r1, p) = rule_step(r, ms[0]);
        lemma_apply_rule_labels(r1, ms.drop_first(), replace_all_spec(acc, ms[0], p));
    }
}

/// The pseudonym handed to the replacement step for each matched value, in
/// order of occurrence, when a rule's pass folds over its matches.
pub open spec fn pseudonyms_used(r: RuleModel, ms: Seq<Seq<char>>) -> Seq<Seq<char>>
    decreases ms.len(),
{
    if ms.len() == 0 {
        Seq::<Seq<char>>::empty()
    } else {
        let (r1, p) = rule_step(r, ms[0]);
        seq![p] + pseudonyms_used(r1, ms.drop_first())
    }
}

/// Folds replacements over pairs of matched value and pseudonym.
pub open spec fn replace_fold(ms: Seq<Seq<char>>, ps: Seq<Seq<char>>, acc: Seq<char>) -> Seq<char>
    decreases ms.len(),
{
    if ms.len() == 0 {
        acc
    } else {
        replace_fold(ms.drop_first(), ps.drop_first(), replace_all_spec(acc, ms[0], ps[0]))
    }
}

/// A rule's pass is the replacement fold over its matches and the pseudonyms
/// the pass hands out for them: `pseudonyms_used` is exactly what reaches the
/// replacement step.
pub proof fn lemma_apply_rule_uses_pseudonyms(r: RuleModel, ms: Seq<Seq<char>>, acc: Seq<char>)
    ensures
        apply_rule(r, ms, acc).1 == replace_fold(ms, pseudonyms_used(r, ms), acc),
    decreases ms.len(),
{
    if ms.len() > 0 {
        let (r1, p) = rule_step(r, ms[0]);
        assert(pseudonyms_used(r, ms)[0] == p);
        assert(pseudonyms_used(r, ms).drop_first() =~= pseudonyms_used(r1, ms.drop_first()));
        lemma_apply_rule_uses_pseudonyms(r1, ms.drop_first(), replace_all_spec(acc, ms[0], p));
    }
}

/// A pass hands out exactly one pseudonym per match.
pub proof fn lemma_pseudonyms_used_len(r: RuleModel, ms: Seq<Seq<char>>)
    ensures
        pseudonyms_used(r, ms).len() == ms.len(),
    decreases ms.len(),
{
    if ms.len() > 0 {
        let (r1, p) = rule_step(r, ms[0]);
        lemma_pseudonyms_used_len(r1, ms.drop_first());
    }
}

/// A recorded value keeps its pseudonym: every later step of the pass on that
/// value hands the recorded pseudonym to the replacement step.
proof fn lemma_recorded_value_keeps_pseudonym(
    r: RuleModel,
    ms: Seq<Seq<char>>,
    m: Seq<char>,
    p: Seq<char>,
)
    requires
        lookup(r.mapping, m) == Some(p),
    ensures
        forall|k: int| 0 <= k < ms.len() && ms[k] == m ==> pseudonyms_used(r, ms)[k] == p,
        pseudonyms_used(r, ms).len() == ms.len(),
    decreases ms.len(),
{
    if ms.len() > 0 {
        let (r1, p0) = rule_step(r, ms[0]);
        if lookup(r.mapping, ms[0]) is None {
            lemma_lookup_push(
                r.mapping,
                m,
                ms[0],
                r.placeholder + dec_str((r.count + 1) as nat),
            );
        }
        lemma_recorded_value_keeps_pseudonym(r1, ms.drop_first(), m, p);
        assert(forall|k: int|
            1 <= k < ms.len() ==> pseudonyms_used(r, ms)[k] == pseudonyms_used(
                r1,
                ms.drop_first(),
            )[k - 1] && ms[k] == ms.drop_first()[k - 1]);
    }
}

/// After a step on `m`, the state records `m` with the returned pseudonym.
proof fn lemma_step_then_lookup(r: RuleModel, m: Seq<char>)
    ensures
        lookup(rule_step(r, m).0.mapping, m) == Some(rule_step(r, m).1),
{
    if lookup(r.mapping, m) is None {
        lemma_lookup_push(
            r.mapping,
            m,
            m,
            r.placeholder + dec_str((r.count + 1) as nat),
        );
    }
}

/// Determinism within a run, over a whole pass: wherever the same matched
/// value occurs twice in a rule's match list, the pass hands the identical
/// pseudonym to the replacement step both times.
pub proof fn lemma_pass_same_value_same_pseudonym(
    r: RuleModel,
    ms: Seq<Seq<char>>,
    i: int,
    j: int,
)
    requires
        0 <= i < ms.len(),
        0 <= j < ms.len(),
        i < j,
        ms[i] == ms[j],
    ensures
        pseudonyms_used(r, ms)[i] == pseudonyms_used(r, ms)[j],
    decreases ms.len(),
{
    let (r1, p0) = rule_step(r, ms[0]);
    lemma_pseudonyms_used_len(r, ms);
    lemma_pseudonyms_used_len(r1, ms.drop_first());
    assert(forall|k: int|
        1 <= k < ms.len() ==> pseudonyms_used(r, ms)[k] == pseudonyms_used(
            r1,
            ms.drop_first(),
        )[k - 1] && ms[k] == ms.drop_first()[k - 1]);
    if i == 0 {
        lemma_step_then_lookup(r, ms[0]);
        lemma_recorded_value_keeps_pseudonym(r1, ms.drop_first(), ms[0], p0);
    } else {
        lemma_pass_same_value_same_pseudonym(r1, ms.drop_first(), i - 1, j - 1);
    }
}

/// Uniqueness over a whole pass: two occurrences of distinct matched values
/// in a well-formed rule's match list are handed distinct pseudonyms.
pub proof fn lemma_pass_distinct_values_distinct_pseudonyms(
    r: RuleModel,
    ms: Seq<Seq<char>>,
    i: int,
    j: int,
)
    requires
        wf_model(r),
        0 <= i < ms.len(),
        0 <= j < ms.len(),
        ms[i] != ms[j],
    ensures
        pseudonyms_used(r, ms)[i] != pseudonyms_used(r, ms)[j],
    decreases ms.len(),
{
    let (r1, p0) = rule_step(r, ms[0]);
    lemma_rule_step_wf(r, ms[0]);
    lemma_pseudonyms_used_len(r, ms);
    lemma_pseudonyms_used_len(r1, ms.drop_first());
    assert(forall|k: int|
        1 <= k < ms.len() ==> pseudonyms_used(r, ms)[k] == pseudonyms_used(
            r1,
            ms.drop_first(),
        )[k - 1] && ms[k] == ms.drop_first()[k - 1]);
    if i == 0 || j == 0 {
        let a = if i == 0 { j } else { i };
        // One value is stepped first; the other occurs later and differs.
        lemma_step_then_lookup(r, ms[0]);
        lemma_pass_other_value_differs(r1, ms.drop_first(), ms[0], p0, a - 1);
    } else {
        lemma_pass_distinct_values_distinct_pseudonyms(r1, ms.drop_first(), i - 1, j - 1);
    }
}

/// In a well-formed state that records `m` with pseudonym `p`, a pass step on
/// any different value hands out a pseudonym other than `p`.
proof fn lemma_pass_other_value_differs(
    r: RuleModel,
    ms: Seq<Seq<char>>,
    m: Seq<char>,
    p: Seq<char>,
    k: int,
)
    requires
        wf_model(r),
        lookup(r.mapping, m) == Some(p),
        0 <= k < ms.len(),
        ms[k] != m,
    ensures
        pseudonyms_used(r, ms)[k] != p,
    decreases ms.len(),
{
    let (r1, p0) = rule_step(r, ms[0]);
    lemma_rule_step_wf(r, ms[0]);
    lemma_pseudonyms_used_len(r, ms);
    lemma_pseudonyms_used_len(r1, ms.drop_first());
    assert(forall|l: int|
        1 <= l < ms.len() ==> pseudonyms_used(r, ms)[l] == pseudonyms_used(
            r1,
            ms.drop_first(),
        )[l - 1] && ms[l] == ms.drop_first()[l - 1]);
    if k == 0 {
        lemma_distinct_values_distinct_pseudonyms(r, m, ms[0]);
        // rule_step on the recorded `m` returns `p` itself, so the pseudonym
        // for the differing value ms[0] is not `p`.
        assert(rule_step(r, m).1 == p);
    } else {
        if lookup(r.mapping, ms[0]) is None {
            lemma_lookup_push(
                r.mapping,
                m,
                ms[0],
                r.placeholder + dec_str((r.count + 1) as nat),
            );
        }
        lemma_pass_other_value_differs(r1, ms.drop_first(), m, p, k - 1);
    }
}

/// Isolation across runs: two separate runs over the same text, each with
/// freshly constructed rules built from the same definitions, produce the
/// same output; pseudonym numbering restarts from one in each run.
pub proof fn lemma_isolation_across_runs(rs1: Seq<RuleModel>, rs2: Seq<RuleModel>, text: Seq<char>)
    requires
        rs1.len() == rs2.len(),
        forall|i: int|
            0 <= i < rs1.len() ==> (#[trigger] rs1[i]).pattern == rs2[i].pattern
                && rs1[i].placeholder == rs2[i].placeholder,
        forall|i: int| 0 <= i < rs1.len() ==> (#[trigger] rs1[i]).mapping.len() == 0 && rs1[i].count == 0,
        forall|i: int| 0 <= i < rs2.len() ==> (#[trigger] rs2[i]).mapping.len() == 0 && rs2[i].count == 0,
    ensures
        redact_models(rs1, text, text).1 == redact_models(rs2, text, text).1,
{
    assert forall|i: int| 0 <= i < rs1.len() implies rs1[i] == rs2[i] by {
        assert(rs1[i].mapping =~= rs2[i].mapping);
    }
    assert(rs1 =~= rs2);
}

/// Helper for the no-match law, generalized over the accumulating output.
proof fn lemma_no_match_acc(rs: Seq<RuleModel>, text: Seq<char>, acc: Seq<char>)
    requires
        forall|i: int|
            0 <= i < rs.len() ==> (#[trigger] matches_of(rs[i].pattern, text)).len() == 0,
    ensures
        redact_models(rs, text, acc).1 == acc,
    decreases rs.len(),
{
    if rs.len() > 0 {
        assert(matches_of(rs[0].pattern, text).len() == 0);
        assert forall|i: int|
            0 <= i < rs.drop_first().len() implies (#[trigger] matches_of(
            rs.drop_first()[i].pattern,
            text,
        )).len() == 0 by {
            assert(rs.drop_first()[i] == rs[i + 1]);
        }
        lemma_no_match_acc(rs.drop_first(), text, acc);
    }
}

/// Identity on no-match: if no rule's pattern matches anywhere in the text,
/// the output equals the input.
pub proof fn lemma_identity_on_no_match(rs: Seq<RuleModel>, text: Seq<char>)
    requires
        forall|i: int|
            0 <= i < rs.len() ==> (#[trigger] matches_of(rs[i].pattern, text)).len() == 0,
    ensures
        redact_models(rs, text, text).1 == text,
{
    lemma_no_match_acc(rs, text, text);
}

/// An empty accumulating output stays empty through one rule's pass: no
/// matched value, empty or not, occurs in it.
proof fn lemma_apply_rule_empty_acc(r: RuleModel, ms: Seq<Seq<char>>)
    ensures
        apply_rule(r, ms, Seq::<char>::empty()).1 == Seq::<char>::empty(),
    decreases ms.len(),
{
    if ms.len() > 0 {
        let (r1, p) = rule_step(r, ms[0]);
        assert(replace_all_spec(Seq::<char>::empty(), ms[0], p) == Seq::<char>::empty());
        lemma_apply_rule_empty_acc(r1, ms.drop_first());
    }
}

/// Empty input: redacting the empty text yields the empty text, for any rule
/// set.
pub proof fn lemma_empty_input(rs: Seq<RuleModel>)
    ensures
        redact_models(rs, Seq::<char>::empty(), Seq::<char>::empty()).1 == Seq::<char>::empty(),
    decreases rs.len(),
{
    if rs.len() > 0 {
        lemma_apply_rule_empty_acc(rs[0], matches_of(rs[0].pattern, Seq::<char>::empty()));
        lemma_empty_input(rs.drop_first());
    }
}

/// Order sensitivity: rules apply strictly in sequence. Splitting a run
/// anywhere changes nothing — the rules after the split still match against
/// the original text, never against the earlier rules' output; only their
/// replacement step operates on the output handed over from the first part.
pub proof fn lemma_rules_apply_in_order(
    rs1: Seq<RuleModel>,
    rs2: Seq<RuleModel>,
    text: Seq<char>,
    acc: Seq<char>,
)
    ensures
        redact_models(rs1 + rs2, text, acc).0 == redact_models(rs1, text, acc).0 + redact_models(
            rs2,
            text,
            redact_models(rs1, text, acc).1,
        ).0,
        redact_models(rs1 + rs2, text, acc).1 == redact_models(
            rs2,
            text,
            redact_models(rs1, text, acc).1,
        ).1,
    decreases rs1.len(),
{
    if rs1.len() == 0 {
        assert(rs1 + rs2 =~= rs2);
        assert(rs1 + redact_models(rs2, text, acc).0 =~= redact_models(rs2, text, acc).0);
    } else {
        let (r1, acc1) = apply_rule(rs1[0], matches_of(rs1[0].pattern, text), acc);
        assert((rs1 + rs2)[0] == rs1[0]);
        assert((rs1 + rs2).drop_first() =~= rs1.drop_first() + rs2);
        lemma_rules_apply_in_order(rs1.drop_first(), rs2, text, acc1);
        assert(seq![r1] + (redact_models(rs1.drop_first(), text, acc1).0 + redact_models(
            rs2,
            text,
            redact_models(rs1, text, acc).1,
        ).0) =~= (seq![r1] + redact_models(rs1.drop_first(), text, acc1).0) + redact_models(
            rs2,
            text,
            redact_models(rs1, text, acc).1,
        ).0);
    }
}

/// Runs one rule over its snapshot of matches: each matched value is stepped
/// through the rule's mapping, and every occurrence of it in the accumulating
/// output is replaced by its pseudonym. Exactly the fold `apply_rule`.
fn run_rule(rule: &mut Rule, ms: &Vec<String>, acc: String) -> (out: String)
    requires
        old(rule).wf(),
    ensures
        final(rule).wf(),
        final(rule).model() == apply_rule(old(rule).model(), ms.deep_view(), acc@).0,
        out@ == apply_rule(old(rule).model(), ms.deep_view(), acc@).1,
        final(rule).comment@ == old(rule).comment@,
{
    let ghost ms_seq = ms.deep_view();
    let ghost acc0 = acc@;
    let mut out = acc;
    let mut k: usize = 0;
    proof {
        assert(ms_seq.skip(0) =~= ms_seq);
    }
    while k < ms.len()
        invariant
            k <= ms@.len(),
            ms_seq == ms.deep_view(),
            rule.wf(),
            rule.comment@ == old(rule).comment@,
            apply_rule(old(rule).model(), ms_seq, acc0) == apply_rule(
                rule.model(),
                ms_seq.skip(k as int),
                out@,
            ),
        decreases ms@.len() - k,
    {
        let matched = &ms[k];
        proof {
            assert(ms_seq[k as int] == ms@[k as int]@);
            assert(ms_seq.skip(k as int)[0] == ms_seq[k as int]);
            assert(ms_seq.skip(k as int).drop_first() =~= ms_seq.skip(k + 1));
        }
        let pseudonym = rule.on_match(matched.as_str());
        out = replace_all(out.as_str(), matched.as_str(), pseudonym.as_str());
        k += 1;
    }
    proof {
        assert(ms_seq.skip(ms@.len() as int) =~= Seq::<Seq<char>>::empty());
    }
    out
}

/// Applies the rules to `text` strictly in sequence order. Every rule's
/// pattern is matched against the original `text`; every occurrence of each
/// matched value in the accumulating output is replaced by that value's
/// pseudonym. Fails, touching nothing, exactly when some rule's pattern does
/// not compile, naming the first such rule.
pub fn redact(rules: &mut Vec<Rule>, text: &str) -> (result: Result<String, PatternCompileError>)
    requires
        forall|i: int| 0 <= i < old(rules)@.len() ==> (#[trigger] old(rules)@[i]).wf(),
    ensures
        result is Ok <==> (forall|i: int|
            0 <= i < old(rules)@.len() ==> pattern_ok(
                (#[trigger] old(rules)@[i]).model().pattern,
            )),
        result matches Ok(out) ==> ({
            let (fin, fout) = redact_models(models_of(old(rules)@), text@, text@);
            &&& models_of(final(rules)@) == fin
            &&& out@ == fout
        }),
        result matches Err(e) ==> ({
            &&& final(rules)@ == old(rules)@
            &&& e.rule_index < old(rules)@.len()
            &&& !pattern_ok(old(rules)@[e.rule_index as int].model().pattern)
            &&& forall|j: int|
                0 <= j < e.rule_index ==> pattern_ok((#[trigger] old(rules)@[j]).model().pattern)
        }),
        final(rules)@.len() == old(rules)@.len(),
        forall|i: int| 0 <= i < final(rules)@.len() ==> (#[trigger] final(rules)@[i]).wf(),
        forall|i: int|
            0 <= i < final(rules)@.len() ==> {
                let r = #[trigger] final(rules)@[i];
                &&& r.pattern@ == old(rules)@[i].pattern@
                &&& r.placeholder@ == old(rules)@[i].placeholder@
                &&& r.comment@ == old(rules)@[i].comment@
            },
{
    // Snapshot all matches against the original text first; fail before any
    // state is touched if some pattern does not compile.
    let mut all: Vec<Vec<String>> = Vec::new();
    let mut i: usize = 0;
    while i < rules.len()
        invariant
            *rules == *old(rules),
            i == all@.len(),
            i <= rules@.len(),
            forall|j: int| 0 <= j < rules@.len() ==> (#[trigger] rules@[j]).wf(),
            forall|j: int|
                0 <= j < i ==> pattern_ok((#[trigger] rules@[j]).model().pattern),
            forall|j: int|
                0 <= j < i ==> (#[trigger] all@[j]).deep_view() == matches_of(
                    rules@[j].model().pattern,
                    text@,
                ),
        decreases rules@.len() - i,
    {
        match find_pattern_matches(rules[i].pattern.as_str(), text) {
            Some(found) => {
                all.push(found);
            },
            None => {
                return Err(PatternCompileError { rule_index: i });
            },
        }
        i += 1;
    }
    // Fold the rules over the accumulating output.
    let mut out: String = text.to_owned();
    let mut i: usize = 0;
    proof {
        assert(models_of(rules@).skip(0) =~= models_of(rules@));
        assert(models_of(rules@).take(0) =~= Seq::<RuleModel>::empty());
        assert(Seq::<RuleModel>::empty() + redact_models(models_of(rules@), text@, text@).0
            =~= redact_models(models_of(rules@), text@, text@).0);
    }
    while i < rules.len()
        invariant
            i <= rules@.len(),
            rules@.len() == old(rules)@.len(),
            all@.len() == rules@.len(),
            forall|j: int| i <= j < rules@.len() ==> rules@[j] == old(rules)@[j],
            forall|j: int| 0 <= j < rules@.len() ==> (#[trigger] rules@[j]).wf(),
            forall|j: int|
                0 <= j < rules@.len() ==> {
                    let r = #[trigger] rules@[j];
                    &&& r.pattern@ == old(rules)@[j].pattern@
                    &&& r.placeholder@ == old(rules)@[j].placeholder@
                    &&& r.comment@ == old(rules)@[j].comment@
                },
            forall|j: int|
                0 <= j < rules@.len() ==> (#[trigger] all@[j]).deep_view() == matches_of(
                    old(rules)@[j].model().pattern,
                    text@,
                ),
            ({
                let (fin, fout) = redact_models(models_of(old(rules)@), text@, text@);
                let (rest, restout) = redact_models(
                    models_of(rules@).skip(i as int),
                    text@,
                    out@,
                );
                &&& fin == models_of(rules@).take(i as int) + rest
                &&& fout == restout
            }),
        decreases rules@.len() - i,
    {
        let ghost rules_pre = rules@;
        let ghost out_pre = out@;
        let ghost r_start = rules@[i as int].model();
        proof {
            assert(models_of(rules_pre).skip(i as int)[0] == r_start);
            assert(models_of(rules_pre).skip(i as int).drop_first() =~= models_of(
                rules_pre,
            ).skip(i + 1));
            assert(r_start.pattern == old(rules)@[i as int].model().pattern);
        }
        out = run_rule(&mut rules[i], &all[i], out);
        i += 1;
        proof {
            lemma_apply_rule_labels(r_start, all@[i - 1].deep_view(), out_pre);
            let ni = i as int;
            assert(models_of(rules@).skip(ni) =~= models_of(rules_pre).skip(ni));
            assert(models_of(rules@).take(ni) =~= models_of(rules_pre).take(ni - 1) + seq![
                rules@[ni - 1].model(),
            ]);
            let (fin, fout) = redact_models(models_of(old(rules)@), text@, text@);
            let (rest, restout) = redact_models(models_of(rules@).skip(ni), text@, out@);
            assert(fin =~= models_of(rules@).take(ni) + rest);
        }
    }
    proof {
        assert(models_of(rules@).skip(rules@.len() as int) =~= Seq::<RuleModel>::empty());
        assert(models_of(rules@).take(rules@.len() as int) =~= models_of(rules@));
        assert(models_of(rules@) + Seq::<RuleModel>::empty() =~= models_of(rules@));
    }
    Ok(out)
}

} // verus!
