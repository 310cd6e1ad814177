use vstd::prelude::*;

verus! {

/// What to do when one file pulls the same target in more than once.
#[derive(Clone, Copy, Debug, PartialEq, Eq, Structural)]
pub enum SameIncludes {
    IgnoreAll,
    DeleteRepeats,
    ThrowAnError,
}

/// Reserved knob: how to reconcile several version directives. Declared in
/// the configuration surface but not enforced by the resolution algorithm.
#[derive(Clone, Copy, Debug, PartialEq, Eq, Structural)]
pub enum MultipleVersions {
    IgnoreAll,
    SetToHighest,
    SetToLowest,
    SetToFirst,
    SetToLast,
    ThrowAnError,
}

/// Reserved knob: what to do with a version directive that is not first.
/// Declared in the configuration surface but not enforced.
#[derive(Clone, Copy, Debug, PartialEq, Eq, Structural)]
pub enum VersionNotAtTheBeginning {
    Ignore,
    MoveToBeginning,
    ThrowAnError,
}

/// One configuration value, remembering whether it was left at its default
/// or set explicitly. An explicit value always survives a merge with a
/// default one.
#[derive(Clone, Copy, Debug)]
pub struct Rule<T: Copy> {
    is_default: bool,
    rule: T,
}

impl<T: Copy> Rule<T> {
    pub closed spec fn spec_is_default(&self) -> bool {
        self.is_default
    }

    pub closed spec fn spec_value(&self) -> T {
        self.rule
    }

    /// The value a merge settles on: an explicit newcomer always wins; an
    /// explicit holder beats a default newcomer; between two defaults the
    /// newcomer wins.
    pub open spec fn spec_merge(self, new: Rule<T>) -> Rule<T> {
        if !new.spec_is_default() {
            new
        } else if !self.spec_is_default() {
            self
        } else {
            new
        }
    }

    fn default(rule: T) -> (r: Rule<T>)
        ensures
            r.spec_is_default(),
            r.spec_value() == rule,
    {
        Rule { is_default: true, rule }
    }

    fn explicit(rule: T) -> (r: Rule<T>)
        ensures
            !r.spec_is_default(),
            r.spec_value() == rule,
    {
        Rule { is_default: false, rule }
    }

    fn merge(self, new: Rule<T>) -> (r: Rule<T>)
        ensures
            r == self.spec_merge(new),
    {
        match new.is_default {
            false => new,
            true => match self.is_default {
                true => new,
                false => self,
            },
        }
    }

    fn add(&mut self, new: Rule<T>)
        ensures
            *final(self) == old(self).spec_merge(new),
    {
        if !new.is_default || self.is_default {
            self.is_default = new.is_default;
            self.rule = new.rule;
        }
    }

    pub fn value(&self) -> (r: T)
        ensures
            r == self.spec_value(),
    {
        self.rule
    }
}

/// The layered configuration of a resolution request: each named rule keeps
/// its value and whether it was set explicitly. Merging two configurations
/// merges each rule independently, override-wins.
#[derive(Clone, Copy, Debug)]
pub struct ParseRules {
    display_warns: Rule<bool>,
    same_includes: Rule<SameIncludes>,
    multiple_versions: Rule<MultipleVersions>,
    version_natb: Rule<VersionNotAtTheBeginning>,
}

impl ParseRules {
    pub closed spec fn spec_display_warns(&self) -> Rule<bool> {
        self.display_warns
    }

    pub closed spec fn spec_same_includes(&self) -> Rule<SameIncludes> {
        self.same_includes
    }

    pub closed spec fn spec_multiple_versions(&self) -> Rule<MultipleVersions> {
        self.multiple_versions
    }

    pub closed spec fn spec_version_natb(&self) -> Rule<VersionNotAtTheBeginning> {
        self.version_natb
    }

    /// The defaults: warnings shown, repeated inclusions collapsed to the
    /// first, and the two reserved knobs at their declared defaults.
    pub fn new() -> (r: ParseRules)
        ensures
            r.spec_display_warns().spec_is_default(),
            r.spec_display_warns().spec_value() == true,
            r.spec_same_includes().spec_is_default(),
            r.spec_same_includes().spec_value() == SameIncludes::DeleteRepeats,
            r.spec_multiple_versions().spec_is_default(),
            r.spec_multiple_versions().spec_value() == MultipleVersions::SetToHighest,
            r.spec_version_natb().spec_is_default(),
            r.spec_version_natb().spec_value() == VersionNotAtTheBeginning::MoveToBeginning,
    {
        ParseRules {
            display_warns: Rule::default(true),
            same_includes: Rule::default(SameIncludes::DeleteRepeats),
            multiple_versions: Rule::default(MultipleVersions::SetToHighest),
            version_natb: Rule::default(VersionNotAtTheBeginning::MoveToBeginning),
        }
    }

    /// Merges rule by rule, override-wins.
    pub fn merge(self, new_rules: ParseRules) -> (r: ParseRules)
        ensures
            r.spec_display_warns() == self.spec_display_warns().spec_merge(
                new_rules.spec_display_warns(),
            ),
            r.spec_same_includes() == self.spec_same_includes().spec_merge(
                new_rules.spec_same_includes(),
            ),
            r.spec_multiple_versions() == self.spec_multiple_versions().spec_merge(
                new_rules.spec_multiple_versions(),
            ),
            r.spec_version_natb() == self.spec_version_natb().spec_merge(
                new_rules.spec_version_natb(),
            ),
    {
        ParseRules {
            display_warns: self.display_warns.merge(new_rules.display_warns),
            same_includes: self.same_includes.merge(new_rules.same_includes),
            multiple_versions: self.multiple_versions.merge(new_rules.multiple_versions),
            version_natb: self.version_natb.merge(new_rules.version_natb),
        }
    }

    /// Merges in place, rule by rule, override-wins.
    pub fn add(&mut self, new_rules: ParseRules)
        ensures
            final(self).spec_display_warns() == old(self).spec_display_warns().spec_merge(
                new_rules.spec_display_warns(),
            ),
            final(self).spec_same_includes() == old(self).spec_same_includes().spec_merge(
                new_rules.spec_same_includes(),
            ),
            final(self).spec_multiple_versions() == old(self).spec_multiple_versions().spec_merge(
                new_rules.spec_multiple_versions(),
            ),
            final(self).spec_version_natb() == old(self).spec_version_natb().spec_merge(
                new_rules.spec_version_natb(),
            ),
    {
        self.display_warns.add(new_rules.display_warns);
        self.same_includes.add(new_rules.same_includes);
        self.multiple_versions.add(new_rules.multiple_versions);
        self.version_natb.add(new_rules.version_natb);
    }

    pub fn display_warns(&self) -> (r: &Rule<bool>)
        ensures
            *r == self.spec_display_warns(),
    {
        &self.display_warns
    }

    pub fn same_includes(&self) -> (r: &Rule<SameIncludes>)
        ensures
            *r == self.spec_same_includes(),
    {
        &self.same_includes
    }

    pub fn multiple_versions(&self) -> (r: &Rule<MultipleVersions>)
        ensures
            *r == self.spec_multiple_versions(),
    {
        &self.multiple_versions
    }

    pub fn version_not_at_the_beginning(&self) -> (r: &Rule<VersionNotAtTheBeginning>)
        ensures
            *r == self.spec_version_natb(),
    {
        &self.version_natb
    }

    pub fn set_display_warns(&mut self, v: bool)
        ensures
            !final(self).spec_display_warns().spec_is_default(),
            final(self).spec_display_warns().spec_value() == v,
            final(self).spec_same_includes() == old(self).spec_same_includes(),
            final(self).spec_multiple_versions() == old(self).spec_multiple_versions(),
            final(self).spec_version_natb() == old(self).spec_version_natb(),
    {
        self.display_warns = Rule::explicit(v);
    }

    pub fn set_same_includes(&mut self, v: SameIncludes)
        ensures
            !final(self).spec_same_includes().spec_is_default(),
            final(self).spec_same_includes().spec_value() == v,
            final(self).spec_display_warns() == old(self).spec_display_warns(),
            final(self).spec_multiple_versions() == old(self).spec_multiple_versions(),
            final(self).spec_version_natb() == old(self).spec_version_natb(),
    {
        self.same_includes = Rule::explicit(v);
    }

    pub fn set_multiple_versions(&mut self, v: MultipleVersions)
        ensures
            !final(self).spec_multiple_versions().spec_is_default(),
            final(self).spec_multiple_versions().spec_value() == v,
            final(self).spec_display_warns() == old(self).spec_display_warns(),
            final(self).spec_same_includes() == old(self).spec_same_includes(),
            final(self).spec_version_natb() == old(self).spec_version_natb(),
    {
        self.multiple_versions = Rule::explicit(v);
    }

    pub fn set_version_not_at_the_beginning(&mut self, v: VersionNotAtTheBeginning)
        ensures
            !final(self).spec_version_natb().spec_is_default(),
            final(self).spec_version_natb().spec_value() == v,
            final(self).spec_display_warns() == old(self).spec_display_warns(),
            final(self).spec_same_includes() == old(self).spec_same_includes(),
            final(self).spec_multiple_versions() == old(self).spec_multiple_versions(),
    {
        self.version_natb = Rule::explicit(v);
    }
}

} // verus!
