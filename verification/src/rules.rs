use vstd::prelude::*;

verus! {

/// How risky it is to remove what a rule finds.
#[derive(Debug, Clone, Copy, PartialEq, Eq, Hash, Structural)]
pub enum SafetyLevel {
    /// Low risk: caches and logs.
    Safe,
    /// Medium risk: configuration or application data.
    Caution,
    /// High risk: possibly still in use.
    Danger,
}

/// The display name of a safety level.
pub open spec fn safety_name(s: SafetyLevel) -> Seq<char> {
    match s {
        SafetyLevel::Safe => "Safe"@,
        SafetyLevel::Caution => "Caution"@,
        SafetyLevel::Danger => "Danger"@,
    }
}

impl SafetyLevel {
    /// The display name of this level.
    pub fn to_string(&self) -> (r: String)
        ensures
            r@ == safety_name(*self),
    {
        match self {
            SafetyLevel::Safe => String::from_str("Safe"),
            SafetyLevel::Caution => String::from_str("Caution"),
            SafetyLevel::Danger => String::from_str("Danger"),
        }
    }
}

/// The kind of leftover that a rule looks for.
#[derive(Debug, Clone, Copy, PartialEq, Eq, Hash, Structural)]
pub enum Category {
    SystemCache,
    SystemLogs,
    AppLeftovers,
    DevHomebrew,
    DevNode,
    /// Docker's data. No built-in rule has this category (see
    /// `builtins::lemma_no_docker_rule`): what Docker keeps is not found by
    /// looking for paths, and the built-in rules only look for paths.
    DevDocker,
    DevPython,
    DevXcode,
    DevJetBrains,
    DevGeneral,
    Trash,
    DsStore,
}

/// The display name of a category.
pub open spec fn category_name(c: Category) -> Seq<char> {
    match c {
        Category::SystemCache => "System Cache"@,
        Category::SystemLogs => "System Logs"@,
        Category::AppLeftovers => "App Leftovers"@,
        Category::DevHomebrew => "Dev - Homebrew"@,
        Category::DevNode => "Dev - Node.js"@,
        Category::DevDocker => "Dev - Docker"@,
        Category::DevPython => "Dev - Python"@,
        Category::DevXcode => "Dev - Xcode"@,
        Category::DevJetBrains => "Dev - JetBrains"@,
        Category::DevGeneral => "Dev - General"@,
        Category::Trash => "Trash"@,
        Category::DsStore => ".DS_Store"@,
    }
}

impl Category {
    /// The display name of this category.
    pub fn to_string(&self) -> (r: String)
        ensures
            r@ == category_name(*self),
    {
        let s = match self {
            Category::SystemCache => "System Cache",
            Category::SystemLogs => "System Logs",
            Category::AppLeftovers => "App Leftovers",
            Category::DevHomebrew => "Dev - Homebrew",
            Category::DevNode => "Dev - Node.js",
            Category::DevDocker => "Dev - Docker",
            Category::DevPython => "Dev - Python",
            Category::DevXcode => "Dev - Xcode",
            Category::DevJetBrains => "Dev - JetBrains",
            Category::DevGeneral => "Dev - General",
            Category::Trash => "Trash",
            Category::DsStore => ".DS_Store",
        };
        String::from_str(s)
    }
}

/// A cleaning rule: where to look, what to match, and how to classify it.
#[derive(Debug, Clone)]
pub struct Rule {
    pub name: String,
    pub category: Category,
    pub safety: SafetyLevel,
    /// The directories to scan.
    pub base_dirs: Vec<String>,
    /// File or directory names to match; when empty, a base directory
    /// itself is what matches.
    pub patterns: Vec<String>,
    /// How deep to walk below a base directory; `None` is unlimited.
    pub max_depth: Option<usize>,
    pub description: String,
}

/// The value of a rule, its text fields taken as character sequences.
#[verifier::ext_equal]
pub struct RuleView {
    pub name: Seq<char>,
    pub category: Category,
    pub safety: SafetyLevel,
    pub base_dirs: Seq<Seq<char>>,
    pub patterns: Seq<Seq<char>>,
    pub max_depth: Option<usize>,
    pub description: Seq<char>,
}

impl View for Rule {
    type V = RuleView;

    open spec fn view(&self) -> RuleView {
        RuleView {
            name: self.name@,
            category: self.category,
            safety: self.safety,
            base_dirs: self.base_dirs.deep_view(),
            patterns: self.patterns.deep_view(),
            max_depth: self.max_depth,
            description: self.description@,
        }
    }
}

impl Rule {
    /// A rule with no directories, no patterns, unlimited depth and an
    /// empty description.
    pub fn new(name: &str, category: Category, safety: SafetyLevel) -> (r: Rule)
        ensures
            r@ == (RuleView {
                name: name@,
                category,
                safety,
                base_dirs: Seq::empty(),
                patterns: Seq::empty(),
                max_depth: None,
                description: Seq::empty(),
            }),
    {
        let r = Rule {
            name: String::from_str(name),
            category,
            safety,
            base_dirs: Vec::new(),
            patterns: Vec::new(),
            max_depth: None,
            description: String::new(),
        };
        assert(r.base_dirs.deep_view() =~= Seq::<Seq<char>>::empty());
        assert(r.patterns.deep_view() =~= Seq::<Seq<char>>::empty());
        r
    }

    /// The same rule scanning `dirs`.
    pub fn with_dirs(self, dirs: Vec<String>) -> (r: Rule)
        ensures
            r@ == (RuleView { base_dirs: dirs.deep_view(), ..self@ }),
    {
        let mut s = self;
        s.base_dirs = dirs;
        s
    }

    /// The same rule matching the names in `patterns`.
    pub fn with_patterns(self, patterns: Vec<String>) -> (r: Rule)
        ensures
            r@ == (RuleView { patterns: patterns.deep_view(), ..self@ }),
    {
        let mut s = self;
        s.patterns = patterns;
        s
    }

    /// The same rule walking at most `depth` levels below each base.
    pub fn with_max_depth(self, depth: usize) -> (r: Rule)
        ensures
            r@ == (RuleView { max_depth: Some(depth), ..self@ }),
    {
        let mut s = self;
        s.max_depth = Some(depth);
        s
    }

    /// The same rule with the description `desc`.
    pub fn with_description(self, desc: &str) -> (r: Rule)
        ensures
            r@ == (RuleView { description: desc@, ..self@ }),
    {
        let mut s = self;
        s.description = String::from_str(desc);
        s
    }
}

/// The values of a sequence of rules.
pub open spec fn rule_views(rules: Seq<Rule>) -> Seq<RuleView> {
    rules.map_values(|r: Rule| r@)
}

/// A collection of rules.
#[derive(Debug, Clone)]
pub struct RuleSet {
    pub rules: Vec<Rule>,
}

/// The rules of `rules` whose category is `category`, in their order.
pub open spec fn rules_in_category(rules: Seq<RuleView>, category: Category) -> Seq<RuleView> {
    rules.filter(|r: RuleView| r.category == category)
}

/// Every category, each once.
pub open spec fn all_categories() -> Seq<Category> {
    seq![
        Category::SystemCache,
        Category::SystemLogs,
        Category::AppLeftovers,
        Category::DevHomebrew,
        Category::DevNode,
        Category::DevDocker,
        Category::DevPython,
        Category::DevXcode,
        Category::DevJetBrains,
        Category::DevGeneral,
        Category::Trash,
        Category::DsStore,
    ]
}

/// The number of rules of `rules` in the categories of `cats`, each
/// category counted as often as it occurs in `cats`.
pub open spec fn rules_in_categories(rules: Seq<RuleView>, cats: Seq<Category>) -> nat
    decreases cats.len(),
{
    if cats.len() == 0 {
        0
    } else {
        rules_in_categories(rules, cats.drop_last()) + rules_in_category(rules, cats.last()).len()
    }
}

spec fn occurrences(cats: Seq<Category>, c: Category) -> nat
    decreases cats.len(),
{
    if cats.len() == 0 {
        0
    } else {
        occurrences(cats.drop_last(), c) + if cats.last() == c {
            1nat
        } else {
            0nat
        }
    }
}

proof fn lemma_no_rules_in_categories(cats: Seq<Category>)
    ensures
        rules_in_categories(Seq::empty(), cats) == 0,
    decreases cats.len(),
{
    if cats.len() > 0 {
        lemma_no_rules_in_categories(cats.drop_last());
        reveal_with_fuel(Seq::filter, 1);
    }
}

proof fn lemma_rules_in_categories_push(rules: Seq<RuleView>, x: RuleView, cats: Seq<Category>)
    ensures
        rules_in_categories(rules.push(x), cats) == rules_in_categories(rules, cats) + occurrences(
            cats,
            x.category,
        ),
    decreases cats.len(),
{
    if cats.len() > 0 {
        lemma_rules_in_categories_push(rules, x, cats.drop_last());
        let c = cats.last();
        rules.lemma_filter_push(x, |r: RuleView| r.category == c);
    }
}

proof fn lemma_each_category_once(c: Category)
    ensures
        occurrences(all_categories(), c) == 1,
{
    reveal_with_fuel(occurrences, 13);
    assert(all_categories().drop_last().drop_last().drop_last().drop_last().drop_last().drop_last()
        .drop_last().drop_last().drop_last().drop_last().drop_last().drop_last() =~= Seq::<
        Category,
    >::empty());
}

/// The categories partition the rules: every rule is in the rules of
/// exactly its own category, so the rules of all categories together are
/// as many as the rules, and no rule is in those of two categories.
pub proof fn law_categories_partition_rules(rules: Seq<RuleView>)
    ensures
        rules_in_categories(rules, all_categories()) == rules.len(),
        forall|c: Category, k: int|
            0 <= k < rules_in_category(rules, c).len() ==> (#[trigger] rules_in_category(
                rules,
                c,
            )[k]).category == c,
    decreases rules.len(),
{
    if rules.len() == 0 {
        lemma_no_rules_in_categories(all_categories());
        assert(rules =~= Seq::<RuleView>::empty());
    } else {
        let rest = rules.drop_last();
        law_categories_partition_rules(rest);
        lemma_rules_in_categories_push(rest, rules.last(), all_categories());
        lemma_each_category_once(rules.last().category);
        assert(rest.push(rules.last()) =~= rules);
    }
    assert forall|c: Category, k: int|
        0 <= k < rules_in_category(rules, c).len() implies (#[trigger] rules_in_category(
            rules,
            c,
        )[k]).category == c by {
        rules.lemma_filter_pred(|r: RuleView| r.category == c, k);
    }
}

impl View for RuleSet {
    type V = Seq<RuleView>;

    open spec fn view(&self) -> Seq<RuleView> {
        rule_views(self.rules@)
    }
}

impl Default for RuleSet {
    fn default() -> (r: RuleSet)
        ensures
            r@ == Seq::<RuleView>::empty(),
    {
        let r = RuleSet { rules: Vec::new() };
        assert(r@ =~= Seq::<RuleView>::empty());
        r
    }
}

impl RuleSet {
    /// The set holding `rules`.
    pub fn new(rules: Vec<Rule>) -> (r: RuleSet)
        ensures
            r.rules@ == rules@,
    {
        RuleSet { rules }
    }

    /// The rules of this set in `category`, in the order of the set.
    pub fn by_category(&self, category: Category) -> (r: Vec<&Rule>)
        ensures
            r@.map_values(|x: &Rule| x@) == rules_in_category(self@, category),
    {
        let mut r: Vec<&Rule> = Vec::new();
        let ghost pred = |x: RuleView| x.category == category;
        let mut i: usize = 0;
        while i < self.rules.len()
            invariant
                i <= self.rules.len(),
                pred == (|x: RuleView| x.category == category),
                r@.map_values(|x: &Rule| x@) == self@.take(i as int).filter(pred),
            decreases self.rules.len() - i,
        {
            let ghost before = r@;
            proof {
                assert(self@.take(i + 1) =~= self@.take(i as int).push(self@[i as int]));
                self@.take(i as int).lemma_filter_push(self@[i as int], pred);
                assert(self@[i as int] == self.rules@[i as int]@);
            }
            if self.rules[i].category == category {
                r.push(&self.rules[i]);
                assert(r@.map_values(|x: &Rule| x@) =~= before.map_values(|x: &Rule| x@).push(
                    self.rules@[i as int]@,
                ));
            }
            i += 1;
        }
        assert(self@.take(self.rules.len() as int) =~= self@);
        r
    }
}

/// Each category has a name of its own: two categories with the same name
/// are the same category.
pub proof fn law_category_names_differ(c1: Category, c2: Category)
    ensures
        category_name(c1) == category_name(c2) ==> c1 == c2,
{
    reveal_strlit("System Cache");
    reveal_strlit("System Logs");
    reveal_strlit("App Leftovers");
    reveal_strlit("Dev - Homebrew");
    reveal_strlit("Dev - Node.js");
    reveal_strlit("Dev - Docker");
    reveal_strlit("Dev - Python");
    reveal_strlit("Dev - Xcode");
    reveal_strlit("Dev - JetBrains");
    reveal_strlit("Dev - General");
    reveal_strlit("Trash");
    reveal_strlit(".DS_Store");
    let a = category_name(c1);
    let b = category_name(c2);
    if a == b {
        assert(a.len() == b.len());
        assert(a[0] == b[0]);
        if a.len() > 6 {
            assert(a[6] == b[6]);
        }
    }
}

} // verus!
