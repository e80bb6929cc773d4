use vstd::prelude::*;

use crate::builtins::{builtin_rules, macos_builtin_rules};
use crate::rules::{category_name, Category, Rule, RuleView, rule_views};
use crate::text::{
    is_ascii_text,
    contains_text, lower_text, split_on, split_text, text_contains, to_lowercase, trim, trim_text,
};

verus! {

/// The terms of a category filter: its comma-separated pieces, trimmed and
/// lower-cased.
pub open spec fn filter_terms(filter: Seq<char>) -> Seq<Seq<char>> {
    split_on(filter, ',').map_values(|p: Seq<char>| lower_text(trim(p)))
}

/// Whether a category is selected by `terms`: some term occurs in the
/// lower-cased name of the category.
pub open spec fn category_selected(c: Category, terms: Seq<Seq<char>>) -> bool {
    exists|k: int|
        0 <= k < terms.len() && #[trigger] text_contains(lower_text(category_name(c)), terms[k])
}

/// The display name of every category is ASCII text.
pub proof fn lemma_category_name_is_ascii(c: Category)
    ensures
        is_ascii_text(category_name(c)),
{
    reveal_strlit("System Cache");
    reveal_strlit("System Logs");
    reveal_strlit("App Leftovers");
    reveal_strlit("Dev - Homebrew");
    reveal_strlit("Dev - Node.js");
    reveal_strlit("Dev - Docker");
    reveal_strlit("Dev - Python");
    reveal_strlit("Dev - Xcode");
    reveal_strlit("Dev - JetBrains");
    reveal_strlit("Dev - General");
    reveal_strlit("Trash");
    reveal_strlit(".DS_Store");
}

/// The rules that a category filter keeps, in their order: all of them when
/// there is no filter.
pub open spec fn selected_rules(rules: Seq<RuleView>, filter: Option<Seq<char>>) -> Seq<RuleView> {
    match filter {
        None => rules,
        Some(f) => rules.filter(|r: RuleView| category_selected(r.category, filter_terms(f))),
    }
}

/// An optional text taken as an optional character sequence.
pub open spec fn optional_text(o: Option<String>) -> Option<Seq<char>> {
    match o {
        Some(s) => Some(s@),
        None => None,
    }
}

/// The terms of the category filter `filter`.
pub fn category_terms(filter: &str) -> (r: Vec<String>)
    ensures
        r.deep_view() == filter_terms(filter@),
{
    let pieces = split_text(filter, ',');
    let mut terms: Vec<String> = Vec::new();
    let mut i: usize = 0;
    while i < pieces.len()
        invariant
            i <= pieces.len(),
            pieces.deep_view() == split_on(filter@, ','),
            terms.deep_view() == filter_terms(filter@).take(i as int),
        decreases pieces.len() - i,
    {
        let trimmed = trim_text(pieces[i].as_str());
        let ghost before = terms.deep_view();
        let term = to_lowercase(trimmed.as_str());
        let ghost term_view = term@;
        terms.push(term);
        assert(pieces.deep_view()[i as int] == pieces@[i as int]@);
        assert(terms.deep_view() =~= before.push(term_view));
        assert(terms.deep_view() =~= filter_terms(filter@).take(i + 1));
        i += 1;
    }
    assert(filter_terms(filter@).take(pieces.len() as int) =~= filter_terms(filter@));
    terms
}

/// Whether a category is selected by `terms`.
pub fn category_matches(category: Category, terms: &Vec<String>) -> (r: bool)
    ensures
        r == category_selected(category, terms.deep_view()),
{
    let name = to_lowercase(category.to_string().as_str());
    proof {
        lemma_category_name_is_ascii(category);
    }
    let mut k: usize = 0;
    while k < terms.len()
        invariant
            k <= terms.len(),
            name@ == lower_text(category_name(category)),
            forall|l: int| 0 <= l < k ==> !text_contains(name@, #[trigger] terms.deep_view()[l]),
        decreases terms.len() - k,
    {
        assert(terms.deep_view()[k as int] == terms@[k as int]@);
        if contains_text(name.as_str(), terms[k].as_str()) {
            return true;
        }
        k += 1;
    }
    false
}

/// The rules of `all` that the category filter keeps, in their order: all
/// of them when there is no filter.
pub fn select_rules(all: Vec<Rule>, category_filter: Option<String>) -> (r: Vec<Rule>)
    ensures
        rule_views(r@) == selected_rules(
            rule_views(all@),
            optional_text(category_filter),
        ),
{
    match category_filter {
        None => all,
        Some(filter) => {
            let terms = category_terms(filter.as_str());
            let ghost views = rule_views(all@);
            let ghost pred = |x: RuleView| category_selected(x.category, filter_terms(filter@));
            let mut kept: Vec<Rule> = Vec::new();
            let mut rest = all;
            let ghost n = views.len();
            while rest.len() > 0
                invariant
                    pred == (|x: RuleView| category_selected(x.category, filter_terms(filter@))),
                    terms.deep_view() == filter_terms(filter@),
                    n == views.len(),
                    rest.len() <= n,
                    rule_views(rest@) == views.skip(n - rest.len()),
                    rule_views(kept@) == views.take(n - rest.len()).filter(pred),
                decreases rest.len(),
            {
                let ghost i = n - rest.len();
                let ghost old_rest = rest@;
                let rule = rest.remove(0);
                proof {
                    assert(rule_views(old_rest)[0] == views.skip(i)[0]);
                    assert(rule@ == views[i]);
                    assert(views.take(i + 1) =~= views.take(i).push(views[i]));
                    views.take(i).lemma_filter_push(views[i], pred);
                    assert(rest@ == old_rest.remove(0));
                    assert forall|k: int| 0 <= k < rest@.len() implies #[trigger] rule_views(
                        rest@,
                    )[k] == views.skip(n - rest.len())[k] by {
                        assert(rest@[k] == old_rest[k + 1]);
                        assert(rule_views(old_rest)[k + 1] == views.skip(i)[k + 1]);
                    }
                    assert(rule_views(rest@) =~= views.skip(n - rest.len()));
                }
                if category_matches(rule.category, &terms) {
                    let ghost before = rule_views(kept@);
                    kept.push(rule);
                    assert(rule_views(kept@) =~= before.push(views[i]));
                }
            }
            assert(views.take(n as int) =~= views);
            kept
        },
    }
}

/// The built-in rules that the category filter keeps: those whose category
/// name contains one of the filter's comma-separated terms, ignoring case
/// and surrounding white space; all of them when there is no filter.
pub fn filter_rules(category_filter: Option<String>) -> (r: Vec<Rule>)
    ensures
        exists|home: Seq<char>|
            rule_views(r@) == selected_rules(
                builtin_rules(home),
                optional_text(category_filter),
            ),
{
    let all = macos_builtin_rules();
    let ghost home = choose|home: Seq<char>| rule_views(all@) == builtin_rules(home);
    select_rules(all, category_filter)
}

} // verus!
