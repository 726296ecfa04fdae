//! Import aliases: rules that rewrite an alias in an import line to a path.

use crate::text::{
    chars_of, contains, contains_str, find_char, has_prefix, index_of_char, replace, replace_all,
    trim_start, trimmed_starts_with,
};
use crate::unique::distinct;
use vstd::prelude::*;
use vstd::string::*;

verus! {

/// The keyword an import line begins with.
pub open spec fn import_keyword() -> Seq<char> {
    seq!['i', 'm', 'p', 'o', 'r', 't']
}

/// The rule written as `param`: the alias before the first colon and the
/// target after it, or nothing where `param` holds no colon.
pub open spec fn parse_mapping(param: Seq<char>) -> Option<(Seq<char>, Seq<char>)> {
    match index_of_char(param, ':') {
        Some(i) => Some((param.subrange(0, i), param.subrange(i + 1, param.len() as int))),
        None => None,
    }
}

/// The rules written as `params`, in order, or the first of `params` that is
/// not a rule.
pub open spec fn parse_mappings(params: Seq<Seq<char>>) -> Result<
    Seq<(Seq<char>, Seq<char>)>,
    Seq<char>,
>
    decreases params.len(),
{
    if params.len() == 0 {
        Ok(Seq::empty())
    } else {
        match parse_mappings(params.drop_last()) {
            Err(bad) => Err(bad),
            Ok(rules) => match parse_mapping(params.last()) {
                None => Err(params.last()),
                Some(rule) => Ok(rules.push(rule)),
            },
        }
    }
}

/// `line` after one rule: in an import line that holds the alias, every
/// occurrence of the alias is replaced by the target; any other line is kept.
pub open spec fn rewrite_line(alias: Seq<char>, target: Seq<char>, line: Seq<char>) -> Seq<char> {
    if has_prefix(trim_start(line), import_keyword()) && contains(line, alias) {
        replace_all(line, alias, target)
    } else {
        line
    }
}

/// `line` after each of `rules` in turn.
pub open spec fn rewrite_with(rules: Seq<(Seq<char>, Seq<char>)>, line: Seq<char>) -> Seq<char>
    decreases rules.len(),
{
    if rules.len() == 0 {
        line
    } else {
        rewrite_line(rules.last().0, rules.last().1, rewrite_with(rules.drop_last(), line))
    }
}

/// One alias rule.
#[derive(Debug)]
pub struct ModuleMapping {
    from: String,
    to: String,
}

/// Why a text is not an alias rule.
#[derive(Debug)]
pub enum ModuleMappingFromParamStringError {
    /// The text holds no colon; the payload is the text.
    InvalidFormat(String),
}

impl View for ModuleMapping {
    type V = (Seq<char>, Seq<char>);

    closed spec fn view(&self) -> (Seq<char>, Seq<char>) {
        (self.from@, self.to@)
    }
}

impl Clone for ModuleMapping {
    fn clone(&self) -> (r: Self)
        ensures
            r@ == self@,
    {
        ModuleMapping { from: self.from.clone(), to: self.to.clone() }
    }
}

impl ModuleMapping {
    /// Reads a rule written as `alias:target`. The alias ends at the first
    /// colon; the target is all that follows it.
    pub fn from_param_string(param_string: &str) -> (r: Result<
        ModuleMapping,
        ModuleMappingFromParamStringError,
    >)
        ensures
            match parse_mapping(param_string@) {
                Some(rule) => r matches Ok(m) && m@ == rule,
                None => r matches Err(ModuleMappingFromParamStringError::InvalidFormat(s)) && s@
                    == param_string@,
            },
    {
        let chars = chars_of(param_string);
        match find_char(&chars, ':') {
            Some(i) => {
                let from = String::from_str(param_string.substring_char(0, i));
                let to = String::from_str(param_string.substring_char(i + 1, chars.len()));
                Ok(ModuleMapping { from, to })
            },
            None => Err(
                ModuleMappingFromParamStringError::InvalidFormat(String::from_str(param_string)),
            ),
        }
    }

    /// Applies this rule to one line.
    pub fn replace_import_alias(&self, line: &str) -> (r: String)
        ensures
            r@ == rewrite_line(self@.0, self@.1, line@),
    {
        proof {
            reveal_strlit("import");
            assert("import"@ =~= import_keyword());
        }
        if trimmed_starts_with(line, "import") && contains_str(line, self.from.as_str()) {
            replace(line, self.from.as_str(), self.to.as_str())
        } else {
            String::from_str(line)
        }
    }

    /// Whether two rules have the same alias and the same target.
    pub fn same(&self, other: &ModuleMapping) -> (r: bool)
        ensures
            r == (self@ == other@),
    {
        self.from == other.from && self.to == other.to
    }
}

/// A set of alias rules, applied in the order in which they were first given.
#[derive(Debug)]
pub struct ModuleMappings(Vec<ModuleMapping>);

/// Why a list of texts is not a set of alias rules.
#[derive(Debug)]
pub enum ModuleMappingsFromParamStringsError {
    /// One of the texts is not a rule.
    InvalidParam(ModuleMappingFromParamStringError),
}

impl View for ModuleMappings {
    type V = Seq<(Seq<char>, Seq<char>)>;

    closed spec fn view(&self) -> Seq<(Seq<char>, Seq<char>)> {
        Seq::new(self.0@.len(), |i: int| self.0@[i]@)
    }
}

impl Clone for ModuleMappings {
    fn clone(&self) -> (r: Self)
        ensures
            r@ == self@,
    {
        let mut out: Vec<ModuleMapping> = Vec::new();
        let mut i: usize = 0;
        while i < self.0.len()
            invariant
                i <= self.0@.len(),
                out@.len() == i,
                forall|k: int| 0 <= k < i ==> out@[k]@ == self.0@[k]@,
            decreases self.0@.len() - i,
        {
            out.push(self.0[i].clone());
            i += 1;
        }
        let r = ModuleMappings(out);
        assert(r@ =~= self@);
        r
    }
}

impl ModuleMappings {
    /// The empty set of rules.
    pub fn new() -> (r: ModuleMappings)
        ensures
            r@ == Seq::<(Seq<char>, Seq<char>)>::empty(),
    {
        let r = ModuleMappings(Vec::new());
        assert(r@ =~= Seq::<(Seq<char>, Seq<char>)>::empty());
        r
    }

    /// The number of rules.
    pub fn len(&self) -> (n: usize)
        ensures
            n == self@.len(),
    {
        self.0.len()
    }

    /// Whether `rule` is one of these rules.
    fn holds(&self, rule: &ModuleMapping) -> (r: bool)
        ensures
            r == self@.contains(rule@),
    {
        let mut i: usize = 0;
        while i < self.0.len()
            invariant
                i <= self.0@.len(),
                forall|k: int| 0 <= k < i ==> self@[k] != rule@,
            decreases self.0@.len() - i,
        {
            if self.0[i].same(rule) {
                assert(self@[i as int] == rule@);
                return true;
            }
            i += 1;
        }
        false
    }

    /// Adds `rule` unless it is already one of these rules.
    fn insert(&mut self, rule: ModuleMapping)
        ensures
            final(self)@ == if old(self)@.contains(rule@) {
                old(self)@
            } else {
                old(self)@.push(rule@)
            },
    {
        if !self.holds(&rule) {
            let ghost before = self@;
            self.0.push(rule);
            assert(self@ =~= before.push(rule@));
        }
    }

    /// The set of the given rules, each kept once.
    pub fn from_mappings(mappings: Vec<ModuleMapping>) -> (r: ModuleMappings)
        ensures
            r@ == distinct(Seq::new(mappings@.len(), |i: int| mappings@[i]@)),
    {
        let ghost all = Seq::new(mappings@.len(), |i: int| mappings@[i]@);
        let mut out = ModuleMappings::new();
        let mut i: usize = 0;
        assert(all.subrange(0, 0) =~= Seq::<(Seq<char>, Seq<char>)>::empty());
        while i < mappings.len()
            invariant
                i <= mappings@.len(),
                all == Seq::new(mappings@.len(), |i: int| mappings@[i]@),
                out@ == distinct(all.subrange(0, i as int)),
            decreases mappings@.len() - i,
        {
            proof {
                let upto = all.subrange(0, i + 1);
                assert(upto.drop_last() =~= all.subrange(0, i as int));
                assert(upto.last() == mappings@[i as int]@);
            }
            out.insert(mappings[i].clone());
            i += 1;
        }
        assert(all.subrange(0, i as int) =~= all);
        out
    }

    /// Reads a set of rules, each written as `alias:target`. The first text
    /// that is not a rule is refused; a rule given twice is kept once.
    pub fn from_param_strings(param_strings: Vec<String>) -> (r: Result<
        ModuleMappings,
        ModuleMappingsFromParamStringsError,
    >)
        ensures
            match parse_mappings(Seq::new(param_strings@.len(), |i: int| param_strings@[i]@)) {
                Ok(rules) => r matches Ok(m) && m@ == distinct(rules),
                Err(bad) => r matches Err(
                    ModuleMappingsFromParamStringsError::InvalidParam(
                        ModuleMappingFromParamStringError::InvalidFormat(s),
                    ),
                ) && s@ == bad,
            },
    {
        let ghost params = Seq::new(param_strings@.len(), |i: int| param_strings@[i]@);
        let mut out = ModuleMappings::new();
        let mut i: usize = 0;
        assert(params.subrange(0, 0) =~= Seq::<Seq<char>>::empty());
        while i < param_strings.len()
            invariant
                i <= param_strings@.len(),
                params == Seq::new(param_strings@.len(), |i: int| param_strings@[i]@),
                parse_mappings(params.subrange(0, i as int)) matches Ok(rules) && out@ == distinct(
                    rules,
                ),
            decreases param_strings@.len() - i,
        {
            proof {
                let upto = params.subrange(0, i + 1);
                assert(upto.drop_last() =~= params.subrange(0, i as int));
                assert(upto.last() == param_strings@[i as int]@);
            }
            match ModuleMapping::from_param_string(param_strings[i].as_str()) {
                Ok(rule) => {
                    proof {
                        let rules = parse_mappings(params.subrange(0, i as int))->Ok_0;
                        assert(rules.push(rule@).drop_last() =~= rules);
                    }
                    out.insert(rule);
                },
                Err(e) => {
                    proof {
                        lemma_parse_mappings_fails_later(params, i + 1);
                    }
                    return Err(ModuleMappingsFromParamStringsError::InvalidParam(e));
                },
            }
            i += 1;
        }
        assert(params.subrange(0, i as int) =~= params);
        Ok(out)
    }

    /// Applies each rule in turn to one line.
    pub fn replace_import_aliases(&self, line: &str) -> (r: String)
        ensures
            r@ == rewrite_with(self@, line@),
    {
        let mut acc = String::from_str(line);
        let mut i: usize = 0;
        assert(self@.subrange(0, 0) =~= Seq::<(Seq<char>, Seq<char>)>::empty());
        while i < self.0.len()
            invariant
                i <= self.0@.len(),
                acc@ == rewrite_with(self@.subrange(0, i as int), line@),
            decreases self.0@.len() - i,
        {
            proof {
                let upto = self@.subrange(0, i + 1);
                assert(upto.drop_last() =~= self@.subrange(0, i as int));
                assert(upto.last() == self.0@[i as int]@);
            }
            acc = self.0[i].replace_import_alias(acc.as_str());
            i += 1;
        }
        assert(self@.subrange(0, i as int) =~= self@);
        acc
    }
}

/// Once a stretch of `params` fails to parse, so does every longer one, with
/// the same offending text.
pub proof fn lemma_parse_mappings_fails_later(params: Seq<Seq<char>>, n: int)
    requires
        0 <= n <= params.len(),
        parse_mappings(params.subrange(0, n)) is Err,
    ensures
        parse_mappings(params) == parse_mappings(params.subrange(0, n)),
    decreases params.len() - n,
{
    if n == params.len() {
        assert(params.subrange(0, n) =~= params);
    } else {
        let upto = params.subrange(0, n + 1);
        assert(upto.drop_last() =~= params.subrange(0, n));
        lemma_parse_mappings_fails_later(params, n + 1);
    }
}

} // verus!
