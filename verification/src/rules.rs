//! The facts gathered so far about the hidden word, per grapheme.
use crate::grapheme_map::{has_key, keys_sorted, lemma_insert_sorted, lemma_keys_distinct, search_grapheme};
use crate::grapheme_rule::GraphemeRule;
use vstd::prelude::*;

verus! {

/// The rules gathered per grapheme; keys sorted, each key once, and each
/// rule at most once per key.
#[derive(Debug)]
pub struct Rules<'s> {
    pub rules: Vec<(&'s str, Vec<GraphemeRule>)>,
}

/// A rule that contradicts the rules already known for its grapheme.
#[derive(Debug)]
pub enum RulesError {
    InvalidRule { grapheme: String, rule: GraphemeRule },
}

/// Each rule occurs once.
pub open spec fn distinct_rules(rs: Seq<GraphemeRule>) -> bool {
    forall|i: int, j: int| 0 <= i < j < rs.len() ==> rs[i] != rs[j]
}

/// The place of the entry with key `g`, when there is one.
pub open spec fn key_index(es: Seq<(&str, Vec<GraphemeRule>)>, g: Seq<char>) -> int {
    choose|k: int| 0 <= k < es.len() && (#[trigger] es[k]).0@ == g
}

/// The rules known for grapheme `g` (none when it has no entry).
pub open spec fn rules_for(es: Seq<(&str, Vec<GraphemeRule>)>, g: Seq<char>) -> Set<GraphemeRule> {
    if has_key(es, g) {
        es[key_index(es, g)].1@.to_set()
    } else {
        Set::empty()
    }
}

/// The rules as a map from grapheme to its set of rules.
pub open spec fn rules_model(es: Seq<(&str, Vec<GraphemeRule>)>) -> Map<Seq<char>, Set<GraphemeRule>> {
    Map::new(|g: Seq<char>| has_key(es, g), |g: Seq<char>| rules_for(es, g))
}

impl<'s> Rules<'s> {
    /// The entries are sorted by grapheme, and no rule repeats within one.
    pub open spec fn wf(&self) -> bool {
        &&& keys_sorted(self.rules@)
        &&& forall|k: int| 0 <= k < self.rules@.len() ==> distinct_rules((#[trigger] self.rules@[k]).1@)
    }

    /// The rules, per grapheme.
    pub open spec fn model(&self) -> Map<Seq<char>, Set<GraphemeRule>> {
        rules_model(self.rules@)
    }

    /// No rules yet.
    pub fn new() -> (r: Rules<'s>)
        ensures
            r.wf(),
            r.rules@.len() == 0,
            r.model() == Map::<Seq<char>, Set<GraphemeRule>>::empty(),
    {
        let r = Rules { rules: Vec::new() };
        proof {
            assert(r.model() =~= Map::<Seq<char>, Set<GraphemeRule>>::empty());
        }
        r
    }

    /// Records a rule for a grapheme. A grapheme seen for the first time
    /// gets the rule; a rule already known changes nothing. A `NotInWord`
    /// rule next to other rules of the grapheme, in either order, is
    /// refused. Any other new rule for a known grapheme is accepted and
    /// leaves the rules as they are.
    pub fn add_rule(&mut self, grapheme: &'s str, rule: GraphemeRule) -> (r: Result<(), RulesError>)
        requires
            old(self).wf(),
        ensures
            final(self).wf(),
            !old(self).model().contains_key(grapheme@) ==> r is Ok && final(self).model()
                == old(self).model().insert(grapheme@, set![rule]),
            old(self).model().contains_key(grapheme@) && old(self).model()[grapheme@].contains(rule)
                ==> r is Ok && final(self).rules@ == old(self).rules@,
            old(self).model().contains_key(grapheme@) && !old(self).model()[grapheme@].contains(rule)
                && (rule == GraphemeRule::NotInWord || old(self).model()[grapheme@].contains(
                GraphemeRule::NotInWord,
            )) ==> final(self).rules@ == old(self).rules@ && match r {
                Err(RulesError::InvalidRule { grapheme: s, rule: bad }) => s@ == grapheme@ && bad == rule,
                Ok(_) => false,
            },
            old(self).model().contains_key(grapheme@) && !old(self).model()[grapheme@].contains(rule)
                && rule != GraphemeRule::NotInWord && !old(self).model()[grapheme@].contains(
                GraphemeRule::NotInWord,
            ) ==> r is Ok && final(self).model() == old(self).model(),
    {
        let ghost es = self.rules@;
        proof {
            assert forall|h: Seq<char>| #[trigger] old(self).model().contains_key(h) == has_key(es, h) by {}
        }
        match search_grapheme(&self.rules, grapheme) {
            Err(pos) => {
                let mut first: Vec<GraphemeRule> = Vec::new();
                first.push(rule);
                let ghost entry = (grapheme, first);
                self.rules.insert(pos, (grapheme, first));
                proof {
                    lemma_insert_sorted(es, pos as int, entry);
                    let nes = self.rules@;
                    assert(nes[pos as int] == entry);
                    assert forall|k: int| 0 <= k < nes.len() implies distinct_rules((#[trigger] nes[k]).1@) by {
                        if k < pos {
                            assert(nes[k] == es[k]);
                        } else if k > pos {
                            assert(nes[k] == es[k - 1]);
                        }
                    }
                    assert(final(self).model() =~= old(self).model().insert(grapheme@, set![rule])) by {
                        assert forall|h: Seq<char>| #[trigger] final(self).model().contains_key(h) implies final(self).model()[h] == old(self).model().insert(grapheme@, set![rule])[h] by {
                            let j = choose|j: int| 0 <= j < nes.len() && (#[trigger] nes[j]).0@ == h;
                            lemma_rules_for_at(nes, j);
                            if j == pos {
                                assert(first@ =~= seq![rule]);
                                assert(seq![rule][0] == rule);
                                assert(seq![rule].to_set() =~= set![rule]) by {
                                    assert forall|x: GraphemeRule| seq![rule].contains(x) <==> x == rule by {
                                        if x == rule {
                                            assert(seq![rule][0] == x);
                                        }
                                    }
                                }
                            } else if j < pos {
                                assert(nes[j] == es[j]);
                                lemma_rules_for_at(es, j);
                            } else {
                                assert(nes[j] == es[j - 1]);
                                lemma_rules_for_at(es, j - 1);
                            }
                        }
                    }
                }
                Ok(())
            },
            Ok(k) => {
                proof {
                    lemma_rules_for_at(es, k as int);
                }
                if contains_rule(&self.rules[k].1, rule) {
                    return Ok(());
                }
                if rule == GraphemeRule::NotInWord || contains_rule(&self.rules[k].1, GraphemeRule::NotInWord) {
                    return Err(RulesError::InvalidRule { grapheme: grapheme.to_owned(), rule });
                }
                let mut rule_to_add: Vec<GraphemeRule> = Vec::new();
                {
                    let rule_to_del: Vec<GraphemeRule> = Vec::new();
                    retain_rules_not_in(&mut self.rules[k].1, &rule_to_del);
                }
                if rule_to_add.len() > self.rules[k].1.len() {
                    std::mem::swap(&mut rule_to_add, &mut self.rules[k].1);
                }
                extend_rules(&mut self.rules[k].1, &rule_to_add);
                proof {
                    let nes = self.rules@;
                    assert(nes[k as int].1@.to_set() =~= es[k as int].1@.to_set());
                    assert forall|j: int| 0 <= j < nes.len() implies (#[trigger] nes[j]).0 == es[j].0 && (j != k ==> nes[j] == es[j]) by {}
                    assert(keys_sorted(nes)) by {
                        assert forall|i: int, j: int| 0 <= i < j < nes.len() implies crate::order::chars_lt(#[trigger] nes[i].0@, #[trigger] nes[j].0@) by {
                            assert(nes[i].0 == es[i].0);
                            assert(nes[j].0 == es[j].0);
                        }
                    }
                    assert forall|h: Seq<char>| #[trigger] has_key(nes, h) == has_key(es, h) by {
                        if has_key(nes, h) {
                            let j = choose|j: int| 0 <= j < nes.len() && (#[trigger] nes[j]).0@ == h;
                            assert(es[j].0 == nes[j].0);
                        }
                        if has_key(es, h) {
                            let j = choose|j: int| 0 <= j < es.len() && (#[trigger] es[j]).0@ == h;
                            assert(es[j].0 == nes[j].0);
                        }
                    }
                    assert(final(self).model() =~= old(self).model()) by {
                        assert forall|h: Seq<char>| #[trigger] final(self).model().contains_key(h) implies final(self).model()[h] == old(self).model()[h] by {
                            let j = choose|j: int| 0 <= j < nes.len() && (#[trigger] nes[j]).0@ == h;
                            lemma_rules_for_at(nes, j);
                            lemma_rules_for_at(es, j);
                        }
                    }
                }
                Ok(())
            },
        }
    }
}

/// The rules of the entry with a given key are the rules that the model
/// holds for that key.
pub proof fn lemma_rules_for_at(es: Seq<(&str, Vec<GraphemeRule>)>, k: int)
    requires
        keys_sorted(es),
        0 <= k < es.len(),
    ensures
        has_key(es, es[k].0@),
        rules_for(es, es[k].0@) == es[k].1@.to_set(),
{
    let g = es[k].0@;
    assert(has_key(es, g));
    let j = key_index(es, g);
    assert(0 <= j < es.len() && es[j].0@ == g);
    if j != k {
        lemma_keys_distinct(es, j, k);
    }
}

/// Whether the rule is among the rules.
fn contains_rule(rs: &Vec<GraphemeRule>, rule: GraphemeRule) -> (r: bool)
    ensures
        r == rs@.contains(rule),
{
    let mut i: usize = 0;
    while i < rs.len()
        invariant
            i <= rs@.len(),
            forall|k: int| 0 <= k < i ==> rs@[k] != rule,
        decreases rs@.len() - i,
    {
        if rs[i] == rule {
            return true;
        }
        i += 1;
    }
    false
}

/// Keeps the rules that are not among `del`.
fn retain_rules_not_in(rs: &mut Vec<GraphemeRule>, del: &Vec<GraphemeRule>)
    requires
        distinct_rules(old(rs)@),
    ensures
        distinct_rules(final(rs)@),
        final(rs)@.to_set() == old(rs)@.to_set().difference(del@.to_set()),
{
    let mut kept: Vec<GraphemeRule> = Vec::new();
    let mut i: usize = 0;
    while i < rs.len()
        invariant
            i <= rs@.len(),
            distinct_rules(rs@),
            distinct_rules(kept@),
            forall|x: GraphemeRule| #[trigger] kept@.contains(x) <==> (rs@.take(i as int).contains(x) && !del@.contains(x)),
        decreases rs@.len() - i,
    {
        let x = rs[i];
        proof {
            assert(!rs@.take(i as int).contains(x)) by {
                if rs@.take(i as int).contains(x) {
                    let j = choose|j: int| 0 <= j < i && #[trigger] rs@.take(i as int)[j] == x;
                    assert(rs@[j] == x);
                }
            }
        }
        if !contains_rule(del, x) {
            let ghost before = kept@;
            kept.push(x);
            proof {
                assert forall|a: int, b: int| 0 <= a < b < kept@.len() implies kept@[a] != kept@[b] by {
                    if b == kept@.len() - 1 {
                        assert(before.contains(kept@[a]));
                    }
                }
                assert forall|y: GraphemeRule| #[trigger] kept@.contains(y) <==> (rs@.take(i as int + 1).contains(y) && !del@.contains(y)) by {
                    crate::order::lemma_take_one_more(rs@, i as int, y);
                    assert(before.contains(y) <==> (rs@.take(i as int).contains(y) && !del@.contains(y)));
                    if kept@.contains(y) {
                        let j = choose|j: int| 0 <= j < kept@.len() && kept@[j] == y;
                        if j < before.len() {
                            assert(before[j] == y);
                        }
                    }
                    if before.contains(y) {
                        let j = choose|j: int| 0 <= j < before.len() && before[j] == y;
                        assert(kept@[j] == y);
                    }
                    if y == x {
                        assert(kept@[before.len() as int] == y);
                    }
                }
            }
        } else {
            proof {
                assert forall|y: GraphemeRule| #[trigger] kept@.contains(y) <==> (rs@.take(i as int + 1).contains(y) && !del@.contains(y)) by {
                    crate::order::lemma_take_one_more(rs@, i as int, y);
                    assert(kept@.contains(y) <==> (rs@.take(i as int).contains(y) && !del@.contains(y)));
                }
            }
        }
        i += 1;
    }
    proof {
        assert(rs@.take(rs@.len() as int) =~= rs@);
        assert(kept@.to_set() =~= rs@.to_set().difference(del@.to_set()));
    }
    *rs = kept;
}

/// Adds the rules of `add` that are not there yet.
fn extend_rules(rs: &mut Vec<GraphemeRule>, add: &Vec<GraphemeRule>)
    requires
        distinct_rules(old(rs)@),
    ensures
        distinct_rules(final(rs)@),
        final(rs)@.to_set() == old(rs)@.to_set().union(add@.to_set()),
{
    let ghost start = rs@;
    let mut i: usize = 0;
    while i < add.len()
        invariant
            i <= add@.len(),
            distinct_rules(rs@),
            forall|x: GraphemeRule| #[trigger] rs@.contains(x) <==> (start.contains(x) || add@.take(i as int).contains(x)),
        decreases add@.len() - i,
    {
        let x = add[i];
        if !contains_rule(rs, x) {
            let ghost before = rs@;
            rs.push(x);
            proof {
                assert forall|a: int, b: int| 0 <= a < b < rs@.len() implies rs@[a] != rs@[b] by {
                    if b == rs@.len() - 1 {
                        assert(before.contains(rs@[a]));
                    }
                }
                assert forall|y: GraphemeRule| #[trigger] rs@.contains(y) <==> (start.contains(y) || add@.take(i as int + 1).contains(y)) by {
                    crate::order::lemma_take_one_more(add@, i as int, y);
                    assert(before.contains(y) <==> (start.contains(y) || add@.take(i as int).contains(y)));
                    if rs@.contains(y) {
                        let j = choose|j: int| 0 <= j < rs@.len() && rs@[j] == y;
                        if j < before.len() {
                            assert(before[j] == y);
                        }
                    }
                    if before.contains(y) {
                        let j = choose|j: int| 0 <= j < before.len() && before[j] == y;
                        assert(rs@[j] == y);
                    }
                    if y == x {
                        assert(rs@[before.len() as int] == y);
                    }
                }
            }
        } else {
            proof {
                assert forall|y: GraphemeRule| #[trigger] rs@.contains(y) <==> (start.contains(y) || add@.take(i as int + 1).contains(y)) by {
                    crate::order::lemma_take_one_more(add@, i as int, y);
                    assert(rs@.contains(y) <==> (start.contains(y) || add@.take(i as int).contains(y)));
                }
            }
        }
        i += 1;
    }
    proof {
        assert(add@.take(add@.len() as int) =~= add@);
        assert(rs@.to_set() =~= start.to_set().union(add@.to_set()));
    }
}

impl<'s> Default for Rules<'s> {
    fn default() -> (r: Rules<'s>)
        ensures
            r.wf(),
            r.rules@.len() == 0,
            r.model() == Map::<Seq<char>, Set<GraphemeRule>>::empty(),
    {
        Rules::new()
    }
}

} // verus!
