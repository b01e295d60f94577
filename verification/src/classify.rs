//! Address classification: an ordered table of rules, of which the first
//! that matches names the kind of an address.

use vstd::prelude::*;
use vstd::string::*;

verus! {

/// One row of a classification table: an address matches when its bits under
/// `mask` equal `value`.
#[derive(Debug, Clone, Copy)]
pub struct AddressRule {
    pub mask: u128,
    pub value: u128,
    pub label: &'static str,
}

/// A row with its label as a character sequence.
pub struct RuleView {
    pub mask: u128,
    pub value: u128,
    pub label: Seq<char>,
}

impl View for AddressRule {
    type V = RuleView;

    open spec fn view(&self) -> RuleView {
        RuleView { mask: self.mask, value: self.value, label: self.label@ }
    }
}

/// The rows of a table as views.
pub open spec fn rule_views(rules: Seq<AddressRule>) -> Seq<RuleView> {
    rules.map_values(|r: AddressRule| r@)
}

/// The rule matches the address.
pub open spec fn rule_matches(rule: RuleView, addr: u128) -> bool {
    addr & rule.mask == rule.value
}

/// The label of the first rule of `table` that matches `addr`, or `fallback`
/// where none does. Earlier rows win over later ones.
pub open spec fn first_label(table: Seq<RuleView>, addr: u128, fallback: Seq<char>) -> Seq<char>
    decreases table.len(),
{
    if table.len() == 0 {
        fallback
    } else if rule_matches(table[0], addr) {
        table[0].label
    } else {
        first_label(table.skip(1), addr, fallback)
    }
}

/// Where no row before `n` matches, the rows from `n` on decide.
pub proof fn lemma_first_label_skip(
    table: Seq<RuleView>,
    addr: u128,
    fallback: Seq<char>,
    n: int,
)
    requires
        0 <= n <= table.len(),
        forall|j: int| 0 <= j < n ==> !rule_matches(#[trigger] table[j], addr),
    ensures
        first_label(table, addr, fallback) == first_label(table.skip(n), addr, fallback),
    decreases n,
{
    if n == 0 {
        assert(table.skip(0) =~= table);
    } else {
        let t = table.skip(1);
        assert forall|j: int| 0 <= j < n - 1 implies !rule_matches(#[trigger] t[j], addr) by {
            assert(t[j] == table[j + 1]);
        }
        lemma_first_label_skip(t, addr, fallback, n - 1);
        assert(t.skip(n - 1) =~= table.skip(n));
    }
}

/// Evaluates a table top-down and returns the first matching label.
pub fn classify(rules: &Vec<AddressRule>, addr: u128, fallback: &'static str) -> (label:
    &'static str)
    ensures
        label@ == first_label(rule_views(rules@), addr, fallback@),
{
    let ghost table = rule_views(rules@);
    let mut i: usize = 0;
    while i < rules.len()
        invariant
            0 <= i <= rules.len(),
            table == rule_views(rules@),
            forall|j: int| 0 <= j < i ==> !rule_matches(#[trigger] table[j], addr),
        decreases rules.len() - i,
    {
        let rule = rules[i];
        assert(table[i as int] == rule@);
        if addr & rule.mask == rule.value {
            proof {
                lemma_first_label_skip(table, addr, fallback@, i as int);
            }
            return rule.label;
        }
        i = i + 1;
    }
    proof {
        lemma_first_label_skip(table, addr, fallback@, i as int);
    }
    fallback
}

} // verus!
