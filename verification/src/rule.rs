use vstd::prelude::*;

verus! {

#[verifier::external_type_specification]
#[verifier::external_body]
pub struct ExRegex(regex::Regex);

/// Whether regex compilation of `pattern` succeeds; compilation depends on
/// the pattern text alone.
pub uninterp spec fn re_compiles(pattern: Seq<char>) -> bool;

/// The compiled regex value for `pattern`; a successful compilation yields a
/// value whose behaviour depends on the pattern text alone.
pub uninterp spec fn compiled_re(pattern: Seq<char>) -> regex::Regex;

/// Whether the regex compiled from `pattern` matches anywhere in `text`.
pub uninterp spec fn re_is_match(pattern: Seq<char>, text: Seq<char>) -> bool;

/// The result of replacing every non-overlapping match of the regex compiled
/// from `pattern` in `text` with the replacement template `rep` (capture
/// group references in `rep` are expanded).
pub uninterp spec fn re_replace_all(pattern: Seq<char>, rep: Seq<char>, text: Seq<char>) -> Seq<char>;

/// Relies on regex::Regex::new: whether compilation succeeds, and the
/// behaviour of the compiled value, depend on the pattern text alone.
#[verifier::external_body]
pub(crate) fn regex_new(pattern: &str) -> (r: Option<regex::Regex>)
    ensures
        (r is Some) == re_compiles(pattern@),
        r matches Some(re) ==> re == compiled_re(pattern@),
{
    regex::Regex::new(pattern).ok()
}

/// Relies on regex::Regex::is_match: the result is true iff the regex
/// matches somewhere in `text`, and depends only on the pattern the regex
/// was compiled from and on `text`.
#[verifier::external_body]
#[allow(unused_variables)]
pub(crate) fn regex_is_match(re: &regex::Regex, pattern: &str, text: &str) -> (r: bool)
    requires
        *re == compiled_re(pattern@),
    ensures
        r == re_is_match(pattern@, text@),
{
    re.is_match(text)
}

/// Relies on regex::Regex::replace_all with a &str replacement: the result
/// depends only on the pattern the regex was compiled from, the replacement
/// and the haystack; when the regex does not match, the haystack comes back
/// unchanged.
#[verifier::external_body]
#[allow(unused_variables)]
pub(crate) fn regex_replace_all(re: &regex::Regex, pattern: &str, rep: &str, text: &str) -> (r: String)
    requires
        *re == compiled_re(pattern@),
    ensures
        r@ == re_replace_all(pattern@, rep@, text@),
        !re_is_match(pattern@, text@) ==> r@ == text@,
{
    re.replace_all(text, rep).into_owned()
}

/// The mathematical content of a rule: the four strings it was loaded from.
pub struct RuleV {
    pub from: Seq<char>,
    pub to: Seq<char>,
    pub exclude: Option<Seq<char>>,
    pub command: Seq<char>,
}

/// A single rewrite rule: a compiled `from` pattern, a replacement template
/// `to`, an optional `exclude` pattern, and a shell command template.
#[derive(Debug)]
pub struct Rule {
    from: regex::Regex,
    from_src: String,
    to: String,
    exclude: Option<regex::Regex>,
    exclude_src: Option<String>,
    command: String,
}

impl View for Rule {
    type V = RuleV;

    closed spec fn view(&self) -> RuleV {
        RuleV {
            from: self.from_src@,
            to: self.to@,
            exclude: match self.exclude_src {
                Some(s) => Some(s@),
                None => None,
            },
            command: self.command@,
        }
    }
}

/// Whether `r` applies to the path `p`: the `from` pattern matches and the
/// `exclude` pattern, if there is one, does not.
pub open spec fn spec_does_match(r: RuleV, p: Seq<char>) -> bool {
    re_is_match(r.from, p) && match r.exclude {
        Some(x) => !re_is_match(x, p),
        None => true,
    }
}

/// The output path `r` produces for `p`: every match of `from` replaced by
/// the `to` template.
pub open spec fn spec_apply(r: RuleV, p: Seq<char>) -> Seq<char> {
    re_replace_all(r.from, r.to, p)
}

/// Rule identity: `from` source, `to` and `command`; `exclude` does not
/// take part.
pub open spec fn rule_eq(a: RuleV, b: RuleV) -> bool {
    a.from == b.from && a.to == b.to && a.command == b.command
}

impl Rule {
    /// The compiled patterns correspond to the stored pattern sources.
    pub closed spec fn wf(&self) -> bool {
        &&& self.from == compiled_re(self.from_src@)
        &&& match (self.exclude, self.exclude_src) {
            (Some(e), Some(s)) => e == compiled_re(s@),
            (None, None) => true,
            _ => false,
        }
    }

    /// Compile a rule from its four parts. Returns `None` exactly when one
    /// of the regular expressions does not compile, which the engine treats
    /// as a fatal configuration error.
    pub fn new(from: &str, to: &str, exclude: Option<&str>, command: &str) -> (r: Option<Rule>)
        ensures
            (r is Some) == (re_compiles(from@) && match exclude {
                Some(x) => re_compiles(x@),
                None => true,
            }),
            r matches Some(rule) ==> rule.wf() && rule@ == (RuleV {
                from: from@,
                to: to@,
                exclude: match exclude {
                    Some(x) => Some(x@),
                    None => None,
                },
                command: command@,
            }),
    {
        let from_re = match regex_new(from) {
            Some(re) => re,
            None => {
                return None;
            },
        };
        let (ex_re, ex_src): (Option<regex::Regex>, Option<String>) = match exclude {
            Some(x) => {
                match regex_new(x) {
                    Some(re) => (Some(re), Some(x.to_owned())),
                    None => {
                        return None;
                    },
                }
            },
            None => (None, None),
        };
        Some(Rule {
            from: from_re,
            from_src: from.to_owned(),
            to: to.to_owned(),
            exclude: ex_re,
            exclude_src: ex_src,
            command: command.to_owned(),
        })
    }

    /// The source text of the `from` pattern.
    pub fn from_source(&self) -> (r: &String)
        ensures
            r@ == self@.from,
    {
        &self.from_src
    }

    /// The command template.
    pub fn command_text(&self) -> (r: &String)
        ensures
            r@ == self@.command,
    {
        &self.command
    }

    /// Whether this rule applies to `path`: `from` matches and `exclude`, if
    /// present, does not.
    pub fn does_match(&self, path: &str) -> (r: bool)
        requires
            self.wf(),
        ensures
            r == spec_does_match(self@, path@),
    {
        if regex_is_match(&self.from, self.from_src.as_str(), path) {
            match (&self.exclude, &self.exclude_src) {
                (Some(x), Some(s)) => !regex_is_match(x, s.as_str(), path),
                _ => true,
            }
        } else {
            false
        }
    }

    /// The path this rule rewrites `path` to. When `from` does not match,
    /// the output equals the input.
    pub fn get_output(&self, path: &str) -> (r: String)
        requires
            self.wf(),
        ensures
            r@ == spec_apply(self@, path@),
            !re_is_match(self@.from, path@) ==> r@ == path@,
    {
        regex_replace_all(&self.from, self.from_src.as_str(), self.to.as_str(), path)
    }
}

/// The views of a sequence of rules.
pub open spec fn views_of(rules: Seq<Rule>) -> Seq<RuleV> {
    rules.map_values(|r: Rule| r@)
}

/// The indices, in declaration order, of the rules that apply to `p`.
pub open spec fn matching(rules: Seq<RuleV>, p: Seq<char>) -> Seq<int>
    decreases rules.len(),
{
    if rules.len() == 0 {
        Seq::empty()
    } else {
        let pre = matching(rules.drop_last(), p);
        if spec_does_match(rules.last(), p) {
            pre.push(rules.len() - 1)
        } else {
            pre
        }
    }
}

/// Two index lists name pairwise equal rules (rule identity of the list
/// entries, as comparing the two rule lists would).
pub open spec fn same_rule_list(rules: Seq<RuleV>, a: Seq<int>, b: Seq<int>) -> bool {
    a.len() == b.len() && forall|k: int|
        0 <= k < a.len() ==> rule_eq(rules[#[trigger] a[k]], rules[b[k]])
}

/// The smart-exclusion heuristic: the pair of a path `p` and the rewritten
/// path `q` is suppressed when more than one rule applies to `p` and the
/// rule list applying to `q` is the same list, so firing the rule would be
/// redundant.
pub open spec fn suppressed(rules: Seq<RuleV>, p: Seq<char>, q: Seq<char>) -> bool {
    matching(rules, p).len() > 1 && same_rule_list(rules, matching(rules, q), matching(rules, p))
}

/// What the matching list holds: exactly the indices of the rules that
/// apply to `p`, each in range, in strictly increasing declaration order.
pub proof fn lemma_matching_props(rules: Seq<RuleV>, p: Seq<char>)
    ensures
        forall|k: int| 0 <= k < matching(rules, p).len() ==> {
            &&& 0 <= #[trigger] matching(rules, p)[k] < rules.len()
            &&& spec_does_match(rules[matching(rules, p)[k]], p)
        },
        forall|ri: int|
            0 <= ri < rules.len() && spec_does_match(rules[ri], p) ==> matching(
                rules,
                p,
            ).contains(ri),
        forall|k1: int, k2: int|
            0 <= k1 < k2 < matching(rules, p).len() ==> matching(rules, p)[k1] < matching(
                rules,
                p,
            )[k2],
    decreases rules.len(),
{
    if rules.len() > 0 {
        lemma_matching_props(rules.drop_last(), p);
        let pre = matching(rules.drop_last(), p);
        assert forall|ri: int|
            0 <= ri < rules.len() && spec_does_match(rules[ri], p) implies matching(
            rules,
            p,
        ).contains(ri) by {
            if ri < rules.len() - 1 {
                assert(rules.drop_last()[ri] == rules[ri]);
                assert(pre.contains(ri));
                let k = choose|k: int| 0 <= k < pre.len() && pre[k] == ri;
                assert(matching(rules, p)[k] == ri);
            } else {
                assert(rules.last() == rules[ri]);
                assert(matching(rules, p).last() == ri);
            }
        }
        assert forall|k: int| 0 <= k < matching(rules, p).len() implies {
            &&& 0 <= #[trigger] matching(rules, p)[k] < rules.len()
            &&& spec_does_match(rules[matching(rules, p)[k]], p)
        } by {
            if k < pre.len() {
                assert(matching(rules, p)[k] == pre[k]);
                assert(rules.drop_last()[pre[k]] == rules[pre[k]]);
            } else {
                assert(spec_does_match(rules.last(), p));
                assert(rules.last() == rules[rules.len() - 1]);
            }
        }
    }
}

/// Return, in declaration order, the indices of the rules that apply to
/// `path`.
pub fn get_matching_rules(rules: &Vec<Rule>, path: &str) -> (r: Vec<usize>)
    requires
        forall|i: int| 0 <= i < rules@.len() ==> (#[trigger] rules@[i]).wf(),
    ensures
        r@.map_values(|u: usize| u as int) == matching(views_of(rules@), path@),
{
    let ghost rv = views_of(rules@);
    let mut out: Vec<usize> = Vec::new();
    let mut i: usize = 0;
    while i < rules.len()
        invariant
            i <= rules@.len(),
            forall|k: int| 0 <= k < rules@.len() ==> (#[trigger] rules@[k]).wf(),
            rv == views_of(rules@),
            out@.map_values(|u: usize| u as int) == matching(rv.take(i as int), path@),
        decreases rules@.len() - i,
    {
        let m = rules[i].does_match(path);
        proof {
            assert(rules@[i as int]@ == rv[i as int]);
            assert(rv.take(i + 1 as int).drop_last() =~= rv.take(i as int));
            assert(rv.take(i + 1 as int).last() == rv[i as int]);
        }
        if m {
            out.push(i);
            proof {
                assert(out@.map_values(|u: usize| u as int) =~= matching(
                    rv.take(i as int),
                    path@,
                ).push(i as int));
            }
        }
        i = i + 1;
    }
    proof {
        assert(rv.take(rules@.len() as int) =~= rv);
    }
    out
}

/// Whether the index lists `a` and `b` name pairwise equal rules.
pub fn rules_list_eq(rules: &Vec<Rule>, a: &Vec<usize>, b: &Vec<usize>) -> (r: bool)
    requires
        forall|k: int| 0 <= k < a@.len() ==> #[trigger] a@[k] < rules@.len(),
        forall|k: int| 0 <= k < b@.len() ==> #[trigger] b@[k] < rules@.len(),
    ensures
        r == same_rule_list(
            views_of(rules@),
            a@.map_values(|u: usize| u as int),
            b@.map_values(|u: usize| u as int),
        ),
{
    let ghost rv = views_of(rules@);
    let ghost av = a@.map_values(|u: usize| u as int);
    let ghost bv = b@.map_values(|u: usize| u as int);
    if a.len() != b.len() {
        return false;
    }
    let mut k: usize = 0;
    while k < a.len()
        invariant
            k <= a@.len(),
            a@.len() == b@.len(),
            forall|j: int| 0 <= j < a@.len() ==> #[trigger] a@[j] < rules@.len(),
            forall|j: int| 0 <= j < b@.len() ==> #[trigger] b@[j] < rules@.len(),
            rv == views_of(rules@),
            av == a@.map_values(|u: usize| u as int),
            bv == b@.map_values(|u: usize| u as int),
            forall|j: int| 0 <= j < k ==> rule_eq(rv[#[trigger] av[j]], rv[bv[j]]),
        decreases a@.len() - k,
    {
        let ra = &rules[a[k]];
        let rb = &rules[b[k]];
        proof {
            assert(rules@[a@[k as int] as int]@ == rv[av[k as int]]);
            assert(rules@[b@[k as int] as int]@ == rv[bv[k as int]]);
        }
        if !(ra == rb) {
            assert(!rule_eq(rv[av[k as int]], rv[bv[k as int]]));
            return false;
        }
        k = k + 1;
    }
    true
}

impl PartialEq for Rule {
    /// Two rules are equal when their `from` sources, `to` templates and
    /// commands agree; `exclude` is not compared.
    fn eq(&self, other: &Rule) -> (r: bool) {
        self.from_src == other.from_src && self.to == other.to && self.command == other.command
    }
}

impl vstd::std_specs::cmp::PartialEqSpecImpl for Rule {
    open spec fn obeys_eq_spec() -> bool {
        true
    }

    open spec fn eq_spec(&self, other: &Rule) -> bool {
        rule_eq(self@, other@)
    }
}

} // verus!
