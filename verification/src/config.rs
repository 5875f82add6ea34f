//! Configuration model: quality aspects, their stages and severities, the
//! per-aspect settings, baseline settings and rule thresholds.
use crate::text::{push_str, string_of, string_is};
use vstd::prelude::*;

verus! {

/// A quality domain that an audit can check.
#[derive(Debug, Clone, Copy, PartialEq, Eq, Hash, Structural)]
pub enum QualityAspect {
    Style,
    Lint,
    TypeCheck,
    UnitTest,
    IntegrationTest,
    Build,
    DeadCode,
    Duplication,
    R8,
}

/// The configuration key of each aspect (`snake_case`).
pub open spec fn aspect_name(aspect: QualityAspect) -> Seq<char> {
    match aspect {
        QualityAspect::Style => "style"@,
        QualityAspect::Lint => "lint"@,
        QualityAspect::TypeCheck => "type_check"@,
        QualityAspect::UnitTest => "unit_test"@,
        QualityAspect::IntegrationTest => "integration_test"@,
        QualityAspect::Build => "build"@,
        QualityAspect::DeadCode => "dead_code"@,
        QualityAspect::Duplication => "duplication"@,
        QualityAspect::R8 => "r8"@,
    }
}

impl QualityAspect {
    /// The aspect's configuration key, e.g. `type_check`.
    pub fn name(&self) -> (r: &'static str)
        ensures
            r@ == aspect_name(*self),
    {
        match self {
            QualityAspect::Style => "style",
            QualityAspect::Lint => "lint",
            QualityAspect::TypeCheck => "type_check",
            QualityAspect::UnitTest => "unit_test",
            QualityAspect::IntegrationTest => "integration_test",
            QualityAspect::Build => "build",
            QualityAspect::DeadCode => "dead_code",
            QualityAspect::Duplication => "duplication",
            QualityAspect::R8 => "r8",
        }
    }

    /// The aspect's configuration key as a `String`.
    pub fn to_string(&self) -> (r: String)
        ensures
            r@ == aspect_name(*self),
    {
        let mut v: Vec<char> = Vec::new();
        push_str(&mut v, self.name());
        string_of(v.as_slice())
    }
}

/// The git hook stage at which an aspect runs.
#[derive(Debug, Clone, Copy, PartialEq, Eq, Hash, Structural)]
pub enum Stage {
    PreCommit,
    PrePush,
}

/// How a failing aspect is reported.
#[derive(Debug, Clone, Copy, PartialEq, Eq, Hash, Structural)]
pub enum Severity {
    Error,
    Warn,
    Warning,
    Advisory,
    Ignore,
}

/// The name a severity is reported under; `warn` and `warning` both report as
/// `warning`.
pub open spec fn severity_name(severity: Severity) -> Seq<char> {
    match severity {
        Severity::Error => "error"@,
        Severity::Warn | Severity::Warning => "warning"@,
        Severity::Advisory => "advisory"@,
        Severity::Ignore => "ignore"@,
    }
}

impl Severity {
    /// The severity's reported name.
    pub fn name(&self) -> (r: &'static str)
        ensures
            r@ == severity_name(*self),
    {
        match self {
            Severity::Error => "error",
            Severity::Warn | Severity::Warning => "warning",
            Severity::Advisory => "advisory",
            Severity::Ignore => "ignore",
        }
    }

    /// The severity's reported name as a `String`.
    pub fn to_string(&self) -> (r: String)
        ensures
            r@ == severity_name(*self),
    {
        let mut v: Vec<char> = Vec::new();
        push_str(&mut v, self.name());
        string_of(v.as_slice())
    }
}

/// Settings of one aspect; every field is optional.
#[derive(Debug, Clone, PartialEq, Eq)]
pub struct AspectConfig {
    pub command: Option<String>,
    pub stage: Option<Stage>,
    pub timeout_secs: Option<u64>,
    pub severity: Option<Severity>,
    pub enabled: Option<bool>,
}

/// The settings with every field absent.
pub open spec fn empty_aspect_config() -> AspectConfig {
    AspectConfig { command: None, stage: None, timeout_secs: None, severity: None, enabled: None }
}

impl Default for AspectConfig {
    fn default() -> (r: Self)
        ensures
            r == empty_aspect_config(),
    {
        AspectConfig { command: None, stage: None, timeout_secs: None, severity: None, enabled: None }
    }
}

/// A copy of `c` (strings copied character for character).
pub fn copy_aspect_config(c: &AspectConfig) -> (r: AspectConfig)
    ensures
        r == *c,
{
    AspectConfig {
        command: match &c.command {
            Some(s) => Some(s.clone()),
            None => None,
        },
        stage: c.stage,
        timeout_secs: c.timeout_secs,
        severity: c.severity,
        enabled: c.enabled,
    }
}

/// A quality aspect that was not checked, with what to do about it.
#[derive(Debug, Clone, PartialEq, Eq)]
pub struct Advisory {
    pub aspect: QualityAspect,
    pub message: String,
    pub recommendation: String,
    pub fingerprint: String,
}

/// The ghost form of an advisory: aspect, message, recommendation and
/// fingerprint.
pub type AdvisoryView = (QualityAspect, Seq<char>, Seq<char>, Seq<char>);

impl View for Advisory {
    type V = AdvisoryView;

    open spec fn view(&self) -> AdvisoryView {
        (self.aspect, self.message@, self.recommendation@, self.fingerprint@)
    }
}

/// The ghost forms of `v`.
pub open spec fn advisories(v: Seq<Advisory>) -> Seq<AdvisoryView> {
    v.map_values(|a: Advisory| a@)
}

/// Baseline settings: an optional baseline file and inline fingerprints.
#[derive(Debug, Clone, PartialEq, Eq)]
pub struct BaselineConfig {
    pub path: Option<String>,
    pub fingerprints: Vec<String>,
}

impl Default for BaselineConfig {
    fn default() -> (r: Self)
        ensures
            r.path is None,
            r.fingerprints@.len() == 0,
    {
        BaselineConfig { path: None, fingerprints: Vec::new() }
    }
}

/// Settings per quality aspect: a map from aspect to settings, held as a
/// vector of entries in which no aspect occurs twice (see [`AspectMap::wf`]),
/// so that every lookup and insertion is proved against [`AspectMap::lookup`].
#[derive(Debug, Clone)]
pub struct AspectMap {
    pub entries: Vec<(QualityAspect, AspectConfig)>,
}

/// The first entry of `entries` for `aspect`, if any.
pub open spec fn aspect_index(entries: Seq<(QualityAspect, AspectConfig)>, aspect: QualityAspect) -> Option<int>
    decreases entries.len(),
{
    if entries.len() == 0 {
        None
    } else {
        match aspect_index(entries.drop_last(), aspect) {
            Some(i) => Some(i),
            None => if entries.last().0 == aspect {
                Some(entries.len() - 1)
            } else {
                None
            },
        }
    }
}

proof fn lemma_aspect_index(entries: Seq<(QualityAspect, AspectConfig)>, aspect: QualityAspect)
    ensures
        aspect_index(entries, aspect) matches Some(k) ==> 0 <= k < entries.len() && entries[k].0
            == aspect && forall|j: int| 0 <= j < k ==> entries[j].0 != aspect,
        aspect_index(entries, aspect) is None ==> forall|j: int|
            0 <= j < entries.len() ==> entries[j].0 != aspect,
    decreases entries.len(),
{
    if entries.len() > 0 {
        let d = entries.drop_last();
        lemma_aspect_index(d, aspect);
        assert forall|j: int| 0 <= j < d.len() implies d[j] == entries[j] by {}
    }
}

proof fn lemma_aspect_index_first(entries: Seq<(QualityAspect, AspectConfig)>, aspect: QualityAspect, i: int)
    requires
        0 <= i < entries.len(),
        entries[i].0 == aspect,
        forall|j: int| 0 <= j < i ==> entries[j].0 != aspect,
    ensures
        aspect_index(entries, aspect) == Some(i),
    decreases entries.len(),
{
    lemma_aspect_index(entries, aspect);
    if i < entries.len() - 1 {
        lemma_aspect_index_first(entries.drop_last(), aspect, i);
    } else {
        lemma_aspect_index(entries.drop_last(), aspect);
    }
}

impl AspectMap {
    /// The settings of `aspect`, if any.
    pub open spec fn lookup(&self, aspect: QualityAspect) -> Option<AspectConfig> {
        match aspect_index(self.entries@, aspect) {
            Some(i) => Some(self.entries@[i].1),
            None => None,
        }
    }

    /// No aspect occurs twice.
    pub open spec fn wf(&self) -> bool {
        forall|i: int, j: int|
            0 <= i < j < self.entries@.len() ==> (#[trigger] self.entries@[i]).0 != (
            #[trigger] self.entries@[j]).0
    }

    /// The empty map.
    pub fn new() -> (r: Self)
        ensures
            r.wf(),
            r.entries@.len() == 0,
            forall|a: QualityAspect| r.lookup(a) is None,
    {
        AspectMap { entries: Vec::new() }
    }

    /// Sets the settings of `aspect`, replacing earlier ones.
    pub fn insert(&mut self, aspect: QualityAspect, config: AspectConfig)
        requires
            old(self).wf(),
        ensures
            final(self).wf(),
            final(self).lookup(aspect) == Some(config),
            forall|a: QualityAspect| a != aspect ==> final(self).lookup(a) == old(self).lookup(a),
            old(self).lookup(aspect) is Some ==> final(self).entries@.len() == old(self).entries@.len(),
            old(self).lookup(aspect) is None ==> final(self).entries@.len() == old(self).entries@.len() + 1,
    {
        let ghost before = self.entries@;
        let mut i: usize = 0;
        while i < self.entries.len()
            invariant
                self.entries@ == before,
                before == old(self).entries@,
                old(self).wf(),
                0 <= i <= before.len(),
                forall|j: int| 0 <= j < i ==> before[j].0 != aspect,
            decreases before.len() - i,
        {
            if self.entries[i].0 == aspect {
                proof {
                    lemma_aspect_index_first(before, aspect, i as int);
                }
                self.entries.set(i, (aspect, config));
                proof {
                    let after = self.entries@;
                    lemma_aspect_index_first(after, aspect, i as int);
                    assert forall|x: int, y: int| 0 <= x < y < after.len() implies (#[trigger] after[x]).0
                        != (#[trigger] after[y]).0 by {
                        assert(before[x].0 != before[y].0);
                    }
                    assert forall|a: QualityAspect| a != aspect implies #[trigger] self.lookup(a)
                        == old(self).lookup(a) by {
                        lemma_aspect_index(before, a);
                        match aspect_index(before, a) {
                            Some(k) => {
                                lemma_aspect_index_first(after, a, k);
                            },
                            None => {
                                lemma_aspect_index(after, a);
                                if aspect_index(after, a) is Some {
                                    let k = aspect_index(after, a)->0;
                                    assert(after[k].0 == a);
                                    assert(before[k].0 == a);
                                }
                            },
                        }
                        lemma_aspect_index(after, a);
                    }
                }
                return;
            }
            i = i + 1;
        }
        self.entries.push((aspect, config));
        proof {
            let after = self.entries@;
            assert(after.drop_last() =~= before);
            lemma_aspect_index(before, aspect);
            lemma_aspect_index_first(after, aspect, before.len() as int);
            assert forall|x: int, y: int| 0 <= x < y < after.len() implies (#[trigger] after[x]).0
                != (#[trigger] after[y]).0 by {
                if y < before.len() {
                    assert(before[x].0 != before[y].0);
                }
            }
            assert forall|a: QualityAspect| a != aspect implies #[trigger] self.lookup(a)
                == old(self).lookup(a) by {
                lemma_aspect_index(before, a);
                lemma_aspect_index(after, a);
            }
        }
    }

    /// The settings of `aspect`, if any.
    pub fn get(&self, aspect: &QualityAspect) -> (r: Option<&AspectConfig>)
        ensures
            r is Some <==> self.lookup(*aspect) is Some,
            r matches Some(c) ==> self.lookup(*aspect) == Some(*c),
    {
        let mut i: usize = 0;
        while i < self.entries.len()
            invariant
                0 <= i <= self.entries@.len(),
                forall|j: int| 0 <= j < i ==> self.entries@[j].0 != *aspect,
            decreases self.entries@.len() - i,
        {
            if self.entries[i].0 == *aspect {
                proof {
                    lemma_aspect_index_first(self.entries@, *aspect, i as int);
                }
                return Some(&self.entries[i].1);
            }
            i = i + 1;
        }
        proof {
            lemma_aspect_index(self.entries@, *aspect);
            if aspect_index(self.entries@, *aspect) is Some {
                let k = aspect_index(self.entries@, *aspect)->0;
                assert(self.entries@[k].0 == *aspect);
            }
        }
        None
    }

    /// Whether `aspect` has settings.
    pub fn contains_key(&self, aspect: &QualityAspect) -> (r: bool)
        ensures
            r == self.lookup(*aspect) is Some,
    {
        self.get(aspect).is_some()
    }

    /// The number of aspects with settings.
    pub fn len(&self) -> (r: usize)
        ensures
            r == self.entries@.len(),
    {
        self.entries.len()
    }

    /// Whether no aspect has settings.
    pub fn is_empty(&self) -> (r: bool)
        ensures
            r == (self.entries@.len() == 0),
            r ==> forall|a: QualityAspect| self.lookup(a) is None,
            !r ==> self.lookup(self.entries@[0].0) is Some,
    {
        if self.entries.len() == 0 {
            true
        } else {
            proof {
                let a = self.entries@[0].0;
                lemma_aspect_index_first(self.entries@, a, 0);
            }
            false
        }
    }
}

/// Allowed dependencies per layer name: a map from layer name to the layers
/// it may import from, held as a vector of entries so that every lookup and
/// insertion is proved against [`LayerMap::lookup`]; an insertion replaces an
/// earlier entry of the same name.
#[derive(Debug, Clone)]
pub struct LayerMap {
    pub entries: Vec<(String, Vec<String>)>,
}

/// The first entry of `entries` named `name`, if any.
pub open spec fn layer_index(entries: Seq<(String, Vec<String>)>, name: Seq<char>) -> Option<int>
    decreases entries.len(),
{
    if entries.len() == 0 {
        None
    } else if entries.last().0@ == name {
        match layer_index(entries.drop_last(), name) {
            Some(i) => Some(i),
            None => Some(entries.len() - 1),
        }
    } else {
        layer_index(entries.drop_last(), name)
    }
}

impl LayerMap {
    /// The allowed dependencies of layer `name`, if it is a layer.
    pub open spec fn lookup(&self, name: Seq<char>) -> Option<Seq<Seq<char>>> {
        match layer_index(self.entries@, name) {
            Some(i) => Some(self.entries@[i].1@.map_values(|s: String| s@)),
            None => None,
        }
    }

    /// The empty map.
    pub fn new() -> (r: Self)
        ensures
            r.entries@.len() == 0,
            forall|n: Seq<char>| r.lookup(n) is None,
    {
        LayerMap { entries: Vec::new() }
    }

    /// Sets the allowed dependencies of `layer`, replacing earlier ones.
    pub fn insert(&mut self, layer: String, allowed: Vec<String>)
        ensures
            final(self).lookup(layer@) == Some(allowed@.map_values(|s: String| s@)),
            forall|n: Seq<char>| n != layer@ ==> final(self).lookup(n) == old(self).lookup(n),
    {
        let ghost before = self.entries@;
        let mut i: usize = 0;
        while i < self.entries.len()
            invariant
                self.entries@ == before,
                before == old(self).entries@,
                0 <= i <= before.len(),
                forall|j: int| 0 <= j < i ==> before[j].0@ != layer@,
            decreases before.len() - i,
        {
            if string_is(&self.entries[i].0, layer.as_str()) {
                proof {
                    lemma_layer_index_first(before, layer@, i as int);
                }
                self.entries.set(i, (layer, allowed));
                proof {
                    let after = self.entries@;
                    lemma_layer_index_first(after, layer@, i as int);
                    assert forall|n: Seq<char>| n != layer@ implies #[trigger] self.lookup(n)
                        == old(self).lookup(n) by {
                        lemma_layer_index_update(before, i as int, after, n);
                        lemma_layer_index(before, n);
                    }
                }
                return;
            }
            i = i + 1;
        }
        self.entries.push((layer, allowed));
        proof {
            let after = self.entries@;
            assert(after.drop_last() =~= before);
            lemma_layer_index_none(before, layer@);
            assert forall|n: Seq<char>| n != layer@ implies #[trigger] self.lookup(n)
                == old(self).lookup(n) by {
                lemma_layer_index(before, n);
            }
        }
    }

    /// The allowed dependencies of layer `name`, if it is a layer.
    pub fn get(&self, name: &[char]) -> (r: Option<&Vec<String>>)
        ensures
            r is Some <==> self.lookup(name@) is Some,
            r matches Some(v) ==> self.lookup(name@) == Some(v@.map_values(|s: String| s@)),
    {
        let mut i: usize = 0;
        while i < self.entries.len()
            invariant
                0 <= i <= self.entries@.len(),
                forall|j: int| 0 <= j < i ==> self.entries@[j].0@ != name@,
            decreases self.entries@.len() - i,
        {
            if crate::text::chars_equal_string(name, &self.entries[i].0) {
                proof {
                    lemma_layer_index_first(self.entries@, name@, i as int);
                }
                return Some(&self.entries[i].1);
            }
            i = i + 1;
        }
        proof {
            lemma_layer_index_none(self.entries@, name@);
        }
        None
    }
}

proof fn lemma_layer_index(entries: Seq<(String, Vec<String>)>, name: Seq<char>)
    ensures
        layer_index(entries, name) matches Some(k) ==> 0 <= k < entries.len() && entries[k].0@
            == name,
        layer_index(entries, name) is None ==> forall|j: int|
            0 <= j < entries.len() ==> entries[j].0@ != name,
    decreases entries.len(),
{
    if entries.len() > 0 {
        let d = entries.drop_last();
        lemma_layer_index(d, name);
        assert forall|j: int| 0 <= j < d.len() implies d[j] == entries[j] by {}
    }
}

proof fn lemma_layer_index_first(entries: Seq<(String, Vec<String>)>, name: Seq<char>, i: int)
    requires
        0 <= i < entries.len(),
        entries[i].0@ == name,
        forall|j: int| 0 <= j < i ==> entries[j].0@ != name,
    ensures
        layer_index(entries, name) == Some(i),
    decreases entries.len(),
{
    if i < entries.len() - 1 {
        lemma_layer_index_first(entries.drop_last(), name, i);
    } else {
        lemma_layer_index_none(entries.drop_last(), name);
    }
}

proof fn lemma_layer_index_none(entries: Seq<(String, Vec<String>)>, name: Seq<char>)
    requires
        forall|j: int| 0 <= j < entries.len() ==> entries[j].0@ != name,
    ensures
        layer_index(entries, name) is None,
    decreases entries.len(),
{
    if entries.len() > 0 {
        lemma_layer_index_none(entries.drop_last(), name);
    }
}

proof fn lemma_layer_index_update(
    before: Seq<(String, Vec<String>)>,
    i: int,
    after: Seq<(String, Vec<String>)>,
    n: Seq<char>,
)
    requires
        0 <= i < before.len(),
        after.len() == before.len(),
        forall|j: int| 0 <= j < before.len() && j != i ==> after[j] == before[j],
        after[i].0@ == before[i].0@,
        before[i].0@ != n,
    ensures
        layer_index(after, n) == layer_index(before, n),
    decreases before.len(),
{
    if i < before.len() - 1 {
        lemma_layer_index_update(before.drop_last(), i, after.drop_last(), n);
    } else {
        assert(after.drop_last() =~= before.drop_last());
    }
}

/// The whole configuration file.
pub struct Config {
    pub analysis: AnalysisConfig,
    pub rules: RulesConfig,
    pub aspects: AspectMap,
    pub baseline: BaselineConfig,
}

/// The `[analysis]` table.
pub struct AnalysisConfig {
    pub targets: Vec<String>,
    pub scope: String,
}

/// The `[rules]` table.
pub struct RulesConfig {
    pub god_class: GodClassConfig,
    pub layers: LayerMap,
}

/// God-class thresholds.
#[derive(Debug, Clone, Copy, PartialEq, Eq, Structural)]
pub struct GodClassConfig {
    pub max_methods: usize,
    pub max_loc: usize,
}

} // verus!
