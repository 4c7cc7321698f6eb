use vstd::prelude::*;

use crate::rule::{re_compiles, views_of, Rule, RuleV};

verus! {

/// The default list of folders to scan when the configuration names none:
/// just the working directory.
pub fn default_folders() -> (r: Vec<String>)
    ensures
        r@.len() == 1,
        r@[0]@ == "."@,
{
    let mut v: Vec<String> = Vec::new();
    v.push(String::from_str("."));
    v
}

/// A rule as it stands in the configuration file: four plain strings, the
/// patterns not yet compiled.
pub struct RuleDef {
    /// The pattern matched against a path.
    pub from: String,
    /// The replacement template producing the output path.
    pub to: String,
    /// A pattern that, when it matches, keeps the rule from applying.
    pub exclude: Option<String>,
    /// The shell command template, with `$i` and `$o` placeholders.
    pub command: String,
}

impl View for RuleDef {
    type V = RuleV;

    open spec fn view(&self) -> RuleV {
        RuleV {
            from: self.from@,
            to: self.to@,
            exclude: match self.exclude {
                Some(s) => Some(s@),
                None => None,
            },
            command: self.command@,
        }
    }
}

/// Whether both patterns of a rule definition compile.
pub open spec fn def_compiles(d: RuleV) -> bool {
    re_compiles(d.from) && match d.exclude {
        Some(x) => re_compiles(x),
        None => true,
    }
}

/// Compile every rule definition, in order. `None` exactly when some
/// pattern does not compile, which is a fatal configuration error.
pub fn compile_rules(defs: &Vec<RuleDef>) -> (r: Option<Vec<Rule>>)
    ensures
        (r is Some) ==> forall|i: int|
            0 <= i < defs@.len() ==> def_compiles((#[trigger] defs@[i])@),
        (r is None) ==> exists|i: int|
            0 <= i < defs@.len() && !def_compiles((#[trigger] defs@[i])@),
        r matches Some(rs) ==> {
            &&& rs@.len() == defs@.len()
            &&& forall|i: int|
                0 <= i < rs@.len() ==> (#[trigger] rs@[i]).wf() && rs@[i]@ == defs@[i]@
        },
{
    let mut out: Vec<Rule> = Vec::new();
    let mut i: usize = 0;
    while i < defs.len()
        invariant
            i <= defs@.len(),
            out@.len() == i,
            forall|k: int| 0 <= k < i ==> def_compiles((#[trigger] defs@[k])@),
            forall|k: int| 0 <= k < i ==> (#[trigger] out@[k]).wf() && out@[k]@ == defs@[k]@,
        decreases defs@.len() - i,
    {
        let d = &defs[i];
        let ex: Option<&str> = match &d.exclude {
            Some(s) => Some(s.as_str()),
            None => None,
        };
        match Rule::new(d.from.as_str(), d.to.as_str(), ex, d.command.as_str()) {
            Some(rule) => {
                out.push(rule);
            },
            None => {
                return None;
            },
        }
        i = i + 1;
    }
    Some(out)
}

/// The loaded configuration: the folders to walk and the compiled rules.
pub struct Config {
    /// The folders whose files feed the graph builder.
    pub folders: Vec<String>,
    /// The rules, in declaration order.
    pub rules: Vec<Rule>,
}

impl Config {
    /// Build a configuration from plain parts. `None` exactly when some
    /// rule pattern does not compile.
    pub fn from_parts(folders: Vec<String>, defs: &Vec<RuleDef>) -> (r: Option<Config>)
        ensures
            (r is Some) ==> forall|i: int|
                0 <= i < defs@.len() ==> def_compiles((#[trigger] defs@[i])@),
            (r is None) ==> exists|i: int|
                0 <= i < defs@.len() && !def_compiles((#[trigger] defs@[i])@),
            r matches Some(cfg) ==> {
                &&& cfg.folders@ == folders@
                &&& views_of(cfg.rules@) == defs@.map_values(|d: RuleDef| d@)
                &&& forall|i: int| 0 <= i < cfg.rules@.len() ==> (#[trigger] cfg.rules@[i]).wf()
            },
    {
        match compile_rules(defs) {
            Some(rules) => {
                proof {
                    assert(views_of(rules@) =~= defs@.map_values(|d: RuleDef| d@));
                }
                Some(Config { folders, rules })
            },
            None => None,
        }
    }
}

} // verus!
