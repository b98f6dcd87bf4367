//! Rule state: one pattern-based matching and substitution policy, with its
//! per-run mapping from matched values to pseudonyms and its assignment
//! counter.

use vstd::prelude::*;
use crate::digits::append_decimal;
use crate::digits::dec_str;
use crate::digits::lemma_dec_str_injective;

verus! {

/// One rule definition: the pattern, the pseudonym family's label, and a
/// human-readable note that plays no part in matching.
pub struct RuleConfig {
    pub pattern: String,
    pub placeholder: String,
    pub comment: String,
}

/// Mathematical model of one rule: its pattern and placeholder, the mapping
/// from matched values to assigned pseudonyms in assignment order, and the
/// number of distinct values assigned so far.
pub ghost struct RuleModel {
    pub pattern: Seq<char>,
    pub placeholder: Seq<char>,
    pub mapping: Seq<(Seq<char>, Seq<char>)>,
    pub count: nat,
}

/// The pseudonym recorded for `key`, scanning entries in assignment order.
pub open spec fn lookup(m: Seq<(Seq<char>, Seq<char>)>, key: Seq<char>) -> Option<Seq<char>>
    decreases m.len(),
{
    if m.len() == 0 {
        None
    } else if m[0].0 == key {
        Some(m[0].1)
    } else {
        lookup(m.drop_first(), key)
    }
}

/// The lookup misses exactly when no entry holds the key.
pub proof fn lemma_lookup_none_iff(m: Seq<(Seq<char>, Seq<char>)>, key: Seq<char>)
    ensures
        lookup(m, key) is None <==> (forall|i: int|
            0 <= i < m.len() ==> (#[trigger] m[i]).0 != key),
    decreases m.len(),
{
    if m.len() > 0 {
        lemma_lookup_none_iff(m.drop_first(), key);
        assert(forall|i: int|
            1 <= i < m.len() ==> (#[trigger] m[i]) == m.drop_first()[i - 1]);
    }
}

/// The lookup returns the first entry holding the key.
pub proof fn lemma_lookup_first(m: Seq<(Seq<char>, Seq<char>)>, key: Seq<char>, j: int)
    requires
        0 <= j < m.len(),
        m[j].0 == key,
        forall|l: int| 0 <= l < j ==> (#[trigger] m[l]).0 != key,
    ensures
        lookup(m, key) == Some(m[j].1),
    decreases m.len(),
{
    if j > 0 {
        assert(forall|l: int|
            0 <= l < j - 1 ==> (#[trigger] m.drop_first()[l]) == m[l + 1]);
        lemma_lookup_first(m.drop_first(), key, j - 1);
    }
}

/// A hit is an entry: some position holds the key and the returned pseudonym.
pub proof fn lemma_lookup_some_index(m: Seq<(Seq<char>, Seq<char>)>, key: Seq<char>)
    requires
        lookup(m, key) is Some,
    ensures
        exists|j: int|
            0 <= j < m.len() && (#[trigger] m[j]).0 == key && m[j].1 == lookup(m, key)->0,
    decreases m.len(),
{
    if m.len() > 0 && m[0].0 != key {
        lemma_lookup_some_index(m.drop_first(), key);
        let j = choose|j: int|
            0 <= j < m.drop_first().len() && (#[trigger] m.drop_first()[j]).0 == key
                && m.drop_first()[j].1 == lookup(m.drop_first(), key)->0;
        assert(m[j + 1] == m.drop_first()[j]);
    }
}

/// Appending an entry changes no earlier hit, and a fresh key then hits the
/// appended entry.
pub proof fn lemma_lookup_push(
    m: Seq<(Seq<char>, Seq<char>)>,
    key: Seq<char>,
    new_key: Seq<char>,
    new_val: Seq<char>,
)
    ensures
        lookup(m.push((new_key, new_val)), key) == (if lookup(m, key) is Some {
            lookup(m, key)
        } else if new_key == key {
            Some(new_val)
        } else {
            None
        }),
    decreases m.len(),
{
    if m.len() == 0 {
        assert(m.push((new_key, new_val)).drop_first() =~= Seq::<(Seq<char>,
            Seq<char>)>::empty());
    } else {
        assert(m.push((new_key, new_val)).drop_first() =~= m.drop_first().push(
            (new_key, new_val),
        ));
        lemma_lookup_push(m.drop_first(), key, new_key, new_val);
    }
}

/// Well-formedness of a rule's state: the counter equals the number of
/// entries, the entry assigned as the `i`-th distinct value carries the
/// pseudonym `placeholder` followed by `i + 1`, and no key occurs twice.
pub open spec fn wf_model(r: RuleModel) -> bool {
    &&& r.count == r.mapping.len()
    &&& (forall|i: int|
        0 <= i < r.mapping.len() ==> (#[trigger] r.mapping[i]).1 == r.placeholder + dec_str(
            (i + 1) as nat,
        ))
    &&& (forall|i: int, j: int|
        0 <= i < j < r.mapping.len() ==> r.mapping[i].0 != r.mapping[j].0)
}

/// One mapping step: an already-seen value is looked up, and a new value is
/// assigned the next pseudonym. Returns the rule's next state and the
/// pseudonym that replaces the value.
pub open spec fn rule_step(r: RuleModel, m: Seq<char>) -> (RuleModel, Seq<char>) {
    match lookup(r.mapping, m) {
        Some(p) => (r, p),
        None => (
            RuleModel {
                pattern: r.pattern,
                placeholder: r.placeholder,
                mapping: r.mapping.push(
                    (m, r.placeholder + dec_str((r.count + 1) as nat)),
                ),
                count: r.count + 1,
            },
            r.placeholder + dec_str((r.count + 1) as nat),
        ),
    }
}

/// A mapping step preserves well-formedness.
pub proof fn lemma_rule_step_wf(r: RuleModel, m: Seq<char>)
    requires
        wf_model(r),
    ensures
        wf_model(rule_step(r, m).0),
{
    if lookup(r.mapping, m) is None {
        lemma_lookup_none_iff(r.mapping, m);
    }
}

/// Determinism within a run: a value the rule has already stepped on is
/// mapped to the identical pseudonym again, and the state does not change.
pub proof fn lemma_same_value_same_pseudonym(r: RuleModel, m: Seq<char>)
    ensures
        rule_step(rule_step(r, m).0, m) == rule_step(r, m),
{
    match lookup(r.mapping, m) {
        Some(p) => {},
        None => {
            lemma_lookup_push(
                r.mapping,
                m,
                m,
                r.placeholder + dec_str((r.count + 1) as nat),
            );
        },
    }
}

/// Within one well-formed rule, no two entries share a pseudonym.
pub proof fn lemma_mapping_pseudonyms_distinct(r: RuleModel, i: int, j: int)
    requires
        wf_model(r),
        0 <= i < r.mapping.len(),
        0 <= j < r.mapping.len(),
        i != j,
    ensures
        r.mapping[i].1 != r.mapping[j].1,
{
    if r.mapping[i].1 == r.mapping[j].1 {
        let p = r.placeholder;
        let a = dec_str((i + 1) as nat);
        let b = dec_str((j + 1) as nat);
        assert((p + a).len() == (p + b).len());
        assert forall|k: int| 0 <= k < a.len() implies a[k] == b[k] by {
            assert(a[k] == (p + a)[p.len() + k]);
            assert(b[k] == (p + b)[p.len() + k]);
        }
        assert(a =~= b);
        lemma_dec_str_injective((i + 1) as nat, (j + 1) as nat);
    }
}

/// Uniqueness: distinct matched values under the same rule are assigned
/// distinct pseudonyms. Stepping a well-formed rule on `m1` and then on a
/// different value `m2` yields two different pseudonyms.
pub proof fn lemma_distinct_values_distinct_pseudonyms(r: RuleModel, m1: Seq<char>, m2: Seq<char>)
    requires
        wf_model(r),
        m1 != m2,
    ensures
        ({
            let (r1, p1) = rule_step(r, m1);
            let (r2, p2) = rule_step(r1, m2);
            p1 != p2
        }),
{
    let (r1, p1) = rule_step(r, m1);
    let (r2, p2) = rule_step(r1, m2);
    lemma_rule_step_wf(r, m1);
    lemma_rule_step_wf(r1, m2);
    // Place both pseudonyms at entries of r2's mapping, then compare entries.
    let i1 = choose|j: int|
        0 <= j < r1.mapping.len() && (#[trigger] r1.mapping[j]).0 == m1 && r1.mapping[j].1 == p1;
    let i2 = choose|j: int|
        0 <= j < r2.mapping.len() && (#[trigger] r2.mapping[j]).0 == m2 && r2.mapping[j].1 == p2;
    lemma_rule_step_records(r, m1);
    lemma_rule_step_records(r1, m2);
    assert(0 <= i1 < r1.mapping.len() && r1.mapping[i1].0 == m1 && r1.mapping[i1].1 == p1);
    assert(0 <= i2 < r2.mapping.len() && r2.mapping[i2].0 == m2 && r2.mapping[i2].1 == p2);
    assert(r2.mapping[i1] == r1.mapping[i1]);
    assert(i1 != i2);
    lemma_mapping_pseudonyms_distinct(r2, i1, i2);
}

/// After a step on `m`, some entry of the mapping holds `m` and the returned
/// pseudonym.
pub proof fn lemma_rule_step_records(r: RuleModel, m: Seq<char>)
    ensures
        exists|j: int|
            0 <= j < rule_step(r, m).0.mapping.len() && (#[trigger] rule_step(
                r,
                m,
            ).0.mapping[j]).0 == m && rule_step(r, m).0.mapping[j].1 == rule_step(r, m).1,
{
    match lookup(r.mapping, m) {
        Some(p) => {
            lemma_lookup_some_index(r.mapping, m);
            let j = choose|j: int|
                0 <= j < r.mapping.len() && (#[trigger] r.mapping[j]).0 == m && r.mapping[j].1
                    == lookup(r.mapping, m)->0;
            assert(rule_step(r, m).0.mapping[j].0 == m);
        },
        None => {
            let n = r.mapping.len() as int;
            assert(rule_step(r, m).0.mapping[n].0 == m);
        },
    }
}

/// One rule instance for a redaction run: the pattern and placeholder copied
/// from its definition, and the run's own mapping and counter.
pub struct Rule {
    pub pattern: String,
    pub mapping: Vec<(String, String)>,
    pub count: usize,
    pub placeholder: String,
    pub comment: String,
}

impl Rule {
    /// The rule's mathematical model.
    pub open spec fn model(self) -> RuleModel {
        RuleModel {
            pattern: self.pattern@,
            placeholder: self.placeholder@,
            mapping: self.mapping@.map_values(|p: (String, String)| (p.0@, p.1@)),
            count: self.count as nat,
        }
    }

    /// Well-formedness of the rule's state.
    pub open spec fn wf(self) -> bool {
        wf_model(self.model())
    }

    /// A fresh rule: no value assigned yet.
    pub open spec fn is_fresh(self) -> bool {
        self.mapping@.len() == 0 && self.count == 0
    }

    /// A rule with empty mapping state and counter zero, the pattern and
    /// labels taken verbatim from its definition.
    pub fn new(pattern: String, placeholder: String, comment: String) -> (rule: Rule)
        ensures
            rule.pattern@ == pattern@,
            rule.placeholder@ == placeholder@,
            rule.comment@ == comment@,
            rule.is_fresh(),
            rule.wf(),
    {
        let rule = Rule { pattern, mapping: Vec::new(), count: 0, placeholder, comment };
        proof {
            assert(rule.model().mapping =~= Seq::<(Seq<char>, Seq<char>)>::empty());
        }
        rule
    }

    /// Looks the matched value up in this rule's mapping; a value seen before
    /// reuses its recorded pseudonym, a new value is assigned the next one
    /// (`placeholder` followed by `count + 1`) and recorded. Exactly the
    /// mapping step `rule_step` describes.
    pub fn on_match(&mut self, matched_text: &str) -> (pseudonym: String)
        requires
            old(self).wf(),
        ensures
            final(self).wf(),
            final(self).model() == rule_step(old(self).model(), matched_text@).0,
            pseudonym@ == rule_step(old(self).model(), matched_text@).1,
            final(self).comment@ == old(self).comment@,
    {
        let ghost m0 = self.model();
        let key = matched_text.to_owned();
        let mut i: usize = 0;
        while i < self.mapping.len()
            invariant
                i <= self.mapping@.len(),
                *self == *old(self),
                old(self).wf(),
                key@ == matched_text@,
                forall|j: int| 0 <= j < i ==> (#[trigger] m0.mapping[j]).0 != matched_text@,
                m0 == old(self).model(),
            decreases self.mapping@.len() - i,
        {
            let entry = &self.mapping[i];
            if entry.0 == key {
                proof {
                    assert(m0.mapping[i as int] == (self.mapping@[i as int].0@,
                        self.mapping@[i as int].1@));
                    lemma_lookup_first(m0.mapping, matched_text@, i as int);
                }
                return entry.1.clone();
            }
            proof {
                assert(m0.mapping[i as int] == (self.mapping@[i as int].0@,
                    self.mapping@[i as int].1@));
            }
            i += 1;
        }
        proof {
            lemma_lookup_none_iff(m0.mapping, matched_text@);
            lemma_rule_step_wf(m0, matched_text@);
        }
        let next: u128 = (self.count as u128) + 1;
        let mut pseudonym = self.placeholder.clone();
        append_decimal(&mut pseudonym, next);
        self.mapping.push((key, pseudonym.clone()));
        self.count = self.mapping.len();
        proof {
            assert(self.model().mapping =~= m0.mapping.push(
                (matched_text@, m0.placeholder + dec_str((m0.count + 1) as nat)),
            ));
        }
        pseudonym
    }
}

/// Produces one fresh rule instance per definition, in definition order, the
/// pattern taken verbatim.
pub fn load_rule_configs(configs: Vec<RuleConfig>) -> (rules: Vec<Rule>)
    ensures
        rules@.len() == configs@.len(),
        forall|i: int|
            0 <= i < configs@.len() ==> {
                let r = #[trigger] rules@[i];
                &&& r.pattern@ == configs@[i].pattern@
                &&& r.placeholder@ == configs@[i].placeholder@
                &&& r.comment@ == configs@[i].comment@
                &&& r.is_fresh()
                &&& r.wf()
            },
{
    let mut rules: Vec<Rule> = Vec::new();
    let mut i: usize = 0;
    while i < configs.len()
        invariant
            i == rules@.len() <= configs@.len(),
            forall|j: int|
                0 <= j < i ==> {
                    let r = #[trigger] rules@[j];
                    &&& r.pattern@ == configs@[j].pattern@
                    &&& r.placeholder@ == configs@[j].placeholder@
                    &&& r.comment@ == configs@[j].comment@
                    &&& r.is_fresh()
                    &&& r.wf()
                },
        decreases configs@.len() - i,
    {
        let c = &configs[i];
        rules.push(Rule::new(c.pattern.clone(), c.placeholder.clone(), c.comment.clone()));
        i += 1;
    }
    rules
}

} // verus!
