//! The resolved configuration: for every canonical key, the history of the
//! values that the sources applied to it, and the rule by which a source
//! overrides what lower levels set.

use vstd::prelude::*;
use crate::cli::StandardFlags;
use crate::error::{ErrorView, LccpError};
use crate::keyed::find_key;
use crate::render::{decimal_text, push_decimal, render_value, value_text};
use crate::toml_value::{TomlData, TomlValue};
use crate::tree::{build_tree, insert_value_at_path, toml_text, toml_text_spec};
use crate::value::members_data;
use crate::keyed::{
    entries_view, first_lookup, get_first, lemma_lookup_push, lemma_sorted_lookup_first, lemma_sorted_put,
    lookup, put, put_entry, sorted_model,
};
use crate::matching::{CommandMatches, MatchesView};
use crate::specs::opt_view;
use crate::text::{chars_of, copy_str, is_prefix, lemma_seq_lt_transitive, seq_lt, starts_with};
use crate::value::{JsonData, JsonValue};

verus! {

broadcast use vstd::std_specs::vec::group_vec_axioms;

/// Where a value came from, in increasing order of precedence.
#[derive(Debug, Clone, Copy, PartialEq, Eq, Structural)]
pub enum SourceKind {
    Default,
    SystemFile,
    InstallFile,
    UserFile,
    WorkingDirFile,
    Environment,
    CliConfigFile,
    CliSet,
    CliExplicit,
}

impl SourceKind {
    /// The name under which the source kind is shown.
    pub open spec fn label_text(self) -> Seq<char> {
        match self {
            SourceKind::Default => "default"@,
            SourceKind::SystemFile => "system_file"@,
            SourceKind::InstallFile => "install_file"@,
            SourceKind::UserFile => "user_file"@,
            SourceKind::WorkingDirFile => "working_dir_file"@,
            SourceKind::Environment => "environment"@,
            SourceKind::CliConfigFile => "cli_config_file"@,
            SourceKind::CliSet => "cli_set"@,
            SourceKind::CliExplicit => "cli_explicit"@,
        }
    }

    /// The name under which the source kind is shown (`default`,
    /// `system_file`, ..., `cli_explicit`).
    pub fn label(&self) -> (r: String)
        ensures
            r@ == self.label_text(),
    {
        match self {
            SourceKind::Default => copy_str("default"),
            SourceKind::SystemFile => copy_str("system_file"),
            SourceKind::InstallFile => copy_str("install_file"),
            SourceKind::UserFile => copy_str("user_file"),
            SourceKind::WorkingDirFile => copy_str("working_dir_file"),
            SourceKind::Environment => copy_str("environment"),
            SourceKind::CliConfigFile => copy_str("cli_config_file"),
            SourceKind::CliSet => copy_str("cli_set"),
            SourceKind::CliExplicit => copy_str("cli_explicit"),
        }
    }
}

/// Where one value came from: the kind of source, its location (a file
/// path, an environment variable, an argv position), its precedence level
/// and the raw text it was read from.
#[derive(Debug)]
pub struct SourceInfo {
    pub kind: SourceKind,
    pub location: String,
    pub precedence_level: u8,
    pub raw: Option<String>,
}

/// The model of a `SourceInfo`.
pub struct SourceView {
    pub kind: SourceKind,
    pub location: Seq<char>,
    pub level: u8,
    pub raw: Option<Seq<char>>,
}

impl View for SourceInfo {
    type V = SourceView;

    open spec fn view(&self) -> SourceView {
        SourceView { kind: self.kind, location: self.location@, level: self.precedence_level, raw: opt_view(self.raw) }
    }
}

/// A value that a source applied to a key.
#[derive(Debug)]
pub struct OverrideRecord {
    pub value: JsonValue,
    pub source: SourceInfo,
}

/// The model of an `OverrideRecord`.
pub struct RecordView {
    pub value: JsonData,
    pub source: SourceView,
}

impl View for OverrideRecord {
    type V = RecordView;

    open spec fn view(&self) -> RecordView {
        RecordView { value: self.value.data(), source: self.source@ }
    }
}

/// The models of a sequence of records.
pub open spec fn records_view(h: Seq<OverrideRecord>) -> Seq<RecordView> {
    h.map_values(|r: OverrideRecord| r@)
}

fn copy_opt_string(o: &Option<String>) -> (r: Option<String>)
    ensures
        opt_view(r) == opt_view(*o),
{
    match o {
        Some(s) => Some(copy_str(s.as_str())),
        None => None,
    }
}

impl SourceInfo {
    /// A copy of this source description.
    pub fn copy(&self) -> (r: SourceInfo)
        ensures
            r@ == self@,
    {
        SourceInfo {
            kind: self.kind,
            location: copy_str(self.location.as_str()),
            precedence_level: self.precedence_level,
            raw: copy_opt_string(&self.raw),
        }
    }
}

impl OverrideRecord {
    /// A copy of this record.
    pub fn copy(&self) -> (r: OverrideRecord)
        ensures
            r@ == self@,
    {
        OverrideRecord { value: self.value.copy(), source: self.source.copy() }
    }
}

/// A copy of a history.
pub fn copy_records(h: &Vec<OverrideRecord>) -> (r: Vec<OverrideRecord>)
    ensures
        records_view(r@) == records_view(h@),
{
    let mut out: Vec<OverrideRecord> = Vec::new();
    for i in 0..h.len()
        invariant
            records_view(out@) == records_view(h@.take(i as int)),
    {
        out.push(h[i].copy());
        assert(records_view(h@.take(i + 1)) =~= records_view(h@.take(i as int)).push(h@[i as int]@));
        assert(records_view(out@) =~= records_view(h@.take(i as int)).push(h@[i as int]@));
    }
    assert(h@.take(h@.len() as int) == h@);
    out
}

/// The history of one resolved key, oldest record first.
#[derive(Debug)]
pub struct ResolvedEntry {
    history: Vec<OverrideRecord>,
}

impl View for ResolvedEntry {
    type V = Seq<RecordView>;

    closed spec fn view(&self) -> Seq<RecordView> {
        records_view(self.history@)
    }
}

/// `k` lies below `key` (it starts with `key.`) or above it (`key` starts
/// with `k.`): setting one of them replaces the other.
pub open spec fn related(k: Seq<char>, key: Seq<char>) -> bool {
    is_prefix(key.push('.'), k) || is_prefix(k.push('.'), key)
}

/// The entries whose keys are not related to `key`, in order.
pub open spec fn drop_related<V>(s: Seq<(Seq<char>, V)>, key: Seq<char>) -> Seq<(Seq<char>, V)>
    decreases s.len(),
{
    if s.len() == 0 {
        s
    } else {
        let d = drop_related(s.drop_last(), key);
        if related(s.last().0, key) {
            d
        } else {
            d.push(s.last())
        }
    }
}

/// The history that a new record extends: the key's current history, or
/// none.
pub open spec fn extended(h: Option<Seq<RecordView>>, rec: RecordView) -> Seq<RecordView> {
    match h {
        Some(h) => h.push(rec),
        None => seq![rec],
    }
}

/// Applies a leaf value to the resolved entries: every key below or above
/// `key` is removed, and `rec` is appended to the history of `key`.
pub open spec fn apply_leaf_spec(
    s: Seq<(Seq<char>, Seq<RecordView>)>,
    key: Seq<char>,
    rec: RecordView,
) -> Seq<(Seq<char>, Seq<RecordView>)> {
    let d = drop_related(s, key);
    put(d, key, extended(first_lookup(d, key), rec))
}

/// The resolved entries are consistent: keys strictly increase, every
/// history is non-empty, and no key lies below or above another.
pub open spec fn entries_wf(s: Seq<(Seq<char>, Seq<RecordView>)>) -> bool {
    &&& sorted_model(s)
    &&& forall|i: int| 0 <= i < s.len() ==> (#[trigger] s[i]).1.len() > 0
    &&& forall|i: int, j: int| 0 <= i < s.len() && 0 <= j < s.len() ==> !related(#[trigger] s[i].0, #[trigger] s[j].0)
}

/// What `drop_related` keeps: entries of `s`, in order, none related to
/// `key`; on a sorted list, the lookups of unrelated keys are unchanged and
/// related keys are gone.
pub proof fn lemma_drop_related<V>(s: Seq<(Seq<char>, V)>, key: Seq<char>)
    ensures
        forall|i: int| #![trigger drop_related(s, key)[i]] 0 <= i < drop_related(s, key).len() ==> exists|j: int|
            0 <= j < s.len() && drop_related(s, key)[i] == #[trigger] s[j],
        forall|i: int| 0 <= i < drop_related(s, key).len() ==> !related(#[trigger] drop_related(s, key)[i].0, key),
        sorted_model(s) ==> sorted_model(drop_related(s, key)),
        sorted_model(s) ==> forall|k: Seq<char>| #[trigger] lookup(drop_related(s, key), k) == if related(k, key) {
            None
        } else {
            lookup(s, k)
        },
    decreases s.len(),
{
    let d = drop_related(s, key);
    if s.len() > 0 {
        let p = s.drop_last();
        let dp = drop_related(p, key);
        lemma_drop_related(p, key);
        assert forall|i: int| #![trigger d[i]] 0 <= i < d.len() implies exists|j: int| 0 <= j < s.len() && d[i] == #[trigger] s[j] by {
            if i < dp.len() {
                let j = choose|j: int| 0 <= j < p.len() && dp[i] == #[trigger] p[j];
                assert(d[i] == dp[i]);
                assert(s[j] == p[j]);
            } else {
                assert(d[i] == s[s.len() - 1]);
            }
        }
        assert forall|i: int| 0 <= i < d.len() implies !related(#[trigger] d[i].0, key) by {
            if i < dp.len() {
                assert(d[i] == dp[i]);
            }
        }
        if sorted_model(s) {
            assert forall|i: int, j: int| 0 <= i < j < p.len() implies seq_lt(#[trigger] p[i].0, #[trigger] p[j].0) by {
                assert(p[i] == s[i] && p[j] == s[j]);
            }
            if !related(s.last().0, key) {
                assert forall|i: int, j: int| 0 <= i < j < d.len() implies seq_lt(#[trigger] d[i].0, #[trigger] d[j].0) by {
                    assert(d[i] == dp[i]);
                    if j < dp.len() {
                        assert(d[j] == dp[j]);
                    } else {
                        let a = choose|a: int| 0 <= a < p.len() && dp[i] == #[trigger] p[a];
                        assert(p[a] == s[a]);
                        assert(seq_lt(s[a].0, s[s.len() - 1].0));
                    }
                }
                assert forall|k: Seq<char>| #[trigger] lookup(d, k) == if related(k, key) {
                    None
                } else {
                    lookup(s, k)
                } by {
                    assert(d == dp.push(s.last()));
                    assert(s == p.push(s.last()));
                    lemma_lookup_push(dp, s.last(), k);
                    lemma_lookup_push(p, s.last(), k);
                }
            } else {
                assert forall|k: Seq<char>| #[trigger] lookup(d, k) == if related(k, key) {
                    None
                } else {
                    lookup(s, k)
                } by {
                    assert(s == p.push(s.last()));
                    lemma_lookup_push(p, s.last(), k);
                    if k == s.last().0 {
                        assert(related(k, key));
                    }
                }
            }
        }
    }
}

/// Law: applying a leaf value keeps the entries consistent, appends the new
/// record to the key's history (starting one if there was none), removes
/// every key below or above it, and leaves all other keys as they were.
pub proof fn law_apply_leaf(s: Seq<(Seq<char>, Seq<RecordView>)>, key: Seq<char>, rec: RecordView)
    requires
        entries_wf(s),
    ensures
        entries_wf(apply_leaf_spec(s, key, rec)),
        lookup(apply_leaf_spec(s, key, rec), key) == Some(extended(lookup(s, key), rec)),
        forall|k: Seq<char>| k != key ==> #[trigger] lookup(apply_leaf_spec(s, key, rec), k) == if related(k, key) {
            None
        } else {
            lookup(s, k)
        },
{
    let d = drop_related(s, key);
    lemma_drop_related(s, key);
    lemma_sorted_lookup_first(d, key);
    assert(!related(key, key)) by {
        if is_prefix(key.push('.'), key) {
            assert(key.push('.').len() <= key.len());
        }
    }
    assert(lookup(d, key) == lookup(s, key));
    let h = extended(first_lookup(d, key), rec);
    let t = put(d, key, h);
    lemma_sorted_put(d, key, h);
    crate::keyed::lemma_put_shape(d, key, h);
    let (p, r) = crate::keyed::put_position(d, key);
    assert forall|i: int| #![trigger t[i]] 0 <= i < t.len() implies i == p || exists|j: int| 0 <= j < s.len() && t[i] == #[trigger] s[j] by {
        if i != p {
            let i2 = if r || i < p { i } else { i - 1 };
            assert(t[i] == d[i2]);
        }
    }
    assert(t[p] == (key, h));
    assert forall|k: Seq<char>| k != key implies #[trigger] lookup(t, k) == if related(k, key) {
        None
    } else {
        lookup(s, k)
    } by {
        assert(lookup(t, k) == lookup(d, k));
        assert(lookup(drop_related(s, key), k) == if related(k, key) { None } else { lookup(s, k) });
    }
    assert forall|i: int| 0 <= i < t.len() implies (#[trigger] t[i]).1.len() > 0 by {
        if i != p {
            let j = choose|j: int| 0 <= j < s.len() && t[i] == #[trigger] s[j];
        }
    }
    assert forall|i: int, j: int| 0 <= i < t.len() && 0 <= j < t.len() implies !related(#[trigger] t[i].0, #[trigger] t[j].0) by {
        if i != p && j != p {
            let a = choose|a: int| 0 <= a < s.len() && t[i] == #[trigger] s[a];
            let b = choose|b: int| 0 <= b < s.len() && t[j] == #[trigger] s[b];
            assert(!related(s[a].0, s[b].0));
        } else if i == p && j != p {
            let j2 = if r || j < p { j } else { j - 1 };
            assert(t[j] == d[j2]);
            assert(!related(d[j2].0, key));
            lemma_related_symmetric(t[j].0, key);
        } else if i != p && j == p {
            let i2 = if r || i < p { i } else { i - 1 };
            assert(t[i] == d[i2]);
            assert(!related(d[i2].0, key));
        } else {
            assert(!related(key, key)) by {
                if is_prefix(key.push('.'), key) {
                    assert(key.push('.').len() <= key.len());
                }
            }
        }
    }
}

/// Being related is symmetric.
pub proof fn lemma_related_symmetric(a: Seq<char>, b: Seq<char>)
    ensures
        related(a, b) == related(b, a),
{
}

} // verus!

verus! {

/// The model of a resolved configuration.
pub struct ResolvedView {
    /// The history of every resolved key, ordered by key.
    pub entries: Seq<(Seq<char>, Seq<RecordView>)>,
    pub warnings: Seq<Seq<char>>,
    pub flags: StandardFlags,
    pub matches: MatchesView,
}

/// The outcome of resolution: the history of values of every key, the
/// warnings raised, the standard flags given and the application's parsed
/// command line.
#[derive(Debug)]
pub struct ResolvedConfig {
    entries: Vec<(String, ResolvedEntry)>,
    warnings: Vec<String>,
    standard_flags: StandardFlags,
    command_matches: CommandMatches,
}

/// The models of a sequence of strings.
pub open spec fn strings_model(v: Seq<String>) -> Seq<Seq<char>> {
    v.map_values(|s: String| s@)
}

impl View for ResolvedConfig {
    type V = ResolvedView;

    closed spec fn view(&self) -> ResolvedView {
        ResolvedView {
            entries: entries_view(self.entries@),
            warnings: strings_model(self.warnings@),
            flags: self.standard_flags,
            matches: self.command_matches@,
        }
    }
}

impl ResolvedConfig {
    /// The resolved entries stay consistent (see `entries_wf`).
    #[verifier::type_invariant]
    closed spec fn inv(self) -> bool {
        entries_wf(entries_view(self.entries@))
    }
}

/// The entries of `entries` whose keys are not related to `key`.
fn without_related(entries: Vec<(String, ResolvedEntry)>, key: &str) -> (r: Vec<(String, ResolvedEntry)>)
    ensures
        entries_view(r@) == drop_related(entries_view(entries@), key@),
{
    let ghost orig = entries_view(entries@);
    let kc = chars_of(key);
    let mut key_dot = chars_of(key);
    key_dot.push('.');
    let mut rest = entries;
    let mut kept: Vec<(String, ResolvedEntry)> = Vec::new();
    let ghost mut n: int = 0;
    proof {
        assert(orig.skip(0) == orig);
        assert(orig.take(0) =~= Seq::<(Seq<char>, Seq<RecordView>)>::empty());
        assert(entries_view(kept@) =~= Seq::<(Seq<char>, Seq<RecordView>)>::empty());
    }
    while rest.len() > 0
        invariant
            0 <= n <= orig.len(),
            entries_view(rest@) == orig.skip(n),
            entries_view(kept@) == drop_related(orig.take(n), key@),
            kc@ == key@,
            key_dot@ == key@.push('.'),
        decreases rest@.len(),
    {
        let ghost before_rest = rest@;
        let ghost before_kept = kept@;
        let e = rest.remove(0);
        proof {
            assert(e == before_rest[0]);
            assert(entries_view(before_rest).len() == before_rest.len());
            assert(n < orig.len());
            assert(entries_view(before_rest)[0] == (before_rest[0].0@, before_rest[0].1@));
            assert(entries_view(before_rest)[0] == orig.skip(n)[0]);
            assert(orig[n] == (e.0@, e.1@));
        }
        let ec = chars_of(e.0.as_str());
        let mut e_dot = chars_of(e.0.as_str());
        e_dot.push('.');
        let rel = starts_with(&ec, &key_dot) || starts_with(&kc, &e_dot);
        if !rel {
            kept.push(e);
        }
        proof {
            assert(orig.take(n + 1).drop_last() =~= orig.take(n));
            assert(orig.take(n + 1).last() == orig[n]);
            assert(rel == related(orig[n].0, key@));
            if !rel {
                assert(entries_view(kept@) =~= entries_view(before_kept).push(orig[n]));
            }
            assert(rest@ == before_rest.remove(0));
            assert forall|i: int| 0 <= i < rest@.len() implies #[trigger] entries_view(rest@)[i] == orig.skip(n + 1)[i] by {
                assert(rest@[i] == before_rest[i + 1]);
                assert(entries_view(before_rest)[i + 1] == orig.skip(n)[i + 1]);
            }
            assert(entries_view(rest@) =~= orig.skip(n + 1));
            n = n + 1;
        }
    }
    proof {
        assert(orig.take(n) == orig);
    }
    kept
}

impl ResolvedConfig {
    /// A resolution with no values and no warnings yet.
    pub(crate) fn empty(flags: StandardFlags, matches: CommandMatches) -> (r: ResolvedConfig)
        ensures
            r@ == (ResolvedView { entries: Seq::empty(), warnings: Seq::empty(), flags: flags, matches: matches@ }),
    {
        let r = ResolvedConfig { entries: Vec::new(), warnings: Vec::new(), standard_flags: flags, command_matches: matches };
        proof {
            assert(entries_view(r.entries@) =~= Seq::<(Seq<char>, Seq<RecordView>)>::empty());
            assert(strings_model(r.warnings@) =~= Seq::<Seq<char>>::empty());
        }
        r
    }

    /// Records a warning.
    pub(crate) fn insert_warning(&mut self, warning: String)
        ensures
            final(self)@ == (ResolvedView { warnings: old(self)@.warnings.push(warning@), ..old(self)@ }),
    {
        proof { use_type_invariant(&*self); }
        let mut warnings: Vec<String> = Vec::new();
        std::mem::swap(&mut warnings, &mut self.warnings);
        warnings.push(warning);
        self.warnings = warnings;
        proof {
            assert(strings_model(self.warnings@) =~= strings_model(old(self).warnings@).push(warning@));
        }
    }

    /// Applies a leaf value from `source` to `key` (see `apply_leaf_spec`).
    pub(crate) fn apply_leaf(&mut self, key: &str, value: JsonValue, source: SourceInfo)
        ensures
            final(self)@ == (ResolvedView {
                entries: apply_leaf_spec(old(self)@.entries, key@, RecordView { value: value.data(), source: source@ }),
                ..old(self)@
            }),
            entries_wf(old(self)@.entries),
            entries_wf(final(self)@.entries),
    {
        proof { use_type_invariant(&*self); }
        let ghost rec = RecordView { value: value.data(), source: source@ };
        proof { law_apply_leaf(entries_view(self.entries@), key@, rec); }
        let mut old_entries: Vec<(String, ResolvedEntry)> = Vec::new();
        std::mem::swap(&mut old_entries, &mut self.entries);
        let mut kept = without_related(old_entries, key);
        let mut history = match get_first(&kept, key) {
            Some(e) => copy_records(&e.history),
            None => Vec::new(),
        };
        let ghost before = history@;
        history.push(OverrideRecord { value, source });
        proof {
            assert(records_view(history@) =~= records_view(before).push(rec));
            assert(records_view(history@) == extended(first_lookup(entries_view(kept@), key@), rec));
        }
        put_entry(&mut kept, copy_str(key), ResolvedEntry { history });
        self.entries = kept;
    }

    /// The warnings raised, in order.
    pub fn warnings(&self) -> (r: &[String])
        ensures
            strings_model(r@) == self@.warnings,
    {
        self.warnings.as_slice()
    }

    /// The standard flags given on the command line.
    pub fn standard_flags(&self) -> (r: &StandardFlags)
        ensures
            *r == self@.flags,
    {
        &self.standard_flags
    }

    /// The application's parsed command line.
    pub fn command_matches(&self) -> (r: &CommandMatches)
        ensures
            r@ == self@.matches,
    {
        &self.command_matches
    }

    /// The override history of `key`, if it has a value.
    pub fn provenance(&self, key: &str) -> (r: Option<Provenance>)
        ensures
            match r {
                Some(p) => p.key@ == key@ && first_lookup(self@.entries, key@) == Some(records_view(p.history@)),
                None => first_lookup(self@.entries, key@) is None,
            },
            entries_wf(self@.entries),
    {
        proof { use_type_invariant(self); }
        match get_first(&self.entries, key) {
            Some(e) => Some(Provenance { key: copy_str(key), history: copy_records(&e.history) }),
            None => None,
        }
    }
}

/// The values that sources applied to one key, oldest first.
#[derive(Debug)]
pub struct Provenance {
    pub key: String,
    pub history: Vec<OverrideRecord>,
}

impl Provenance {
    /// The value that won: that of the last record.
    pub fn final_value(&self) -> (r: Option<&JsonValue>)
        ensures
            match r {
                Some(v) => self.history@.len() > 0 && v.data() == self.history@.last().value.data(),
                None => self.history@.len() == 0,
            },
    {
        let n = self.history.len();
        if n == 0 {
            None
        } else {
            Some(&self.history[n - 1].value)
        }
    }

    /// Where the value that won came from.
    pub fn final_source(&self) -> (r: Option<&SourceInfo>)
        ensures
            match r {
                Some(s) => self.history@.len() > 0 && s@ == self.history@.last().source@,
                None => self.history@.len() == 0,
            },
    {
        let n = self.history.len();
        if n == 0 {
            None
        } else {
            Some(&self.history[n - 1].source)
        }
    }
}

} // verus!

verus! {

/// The entries below `key` (their keys start with `key.`), in order, each
/// as the rest of its key after `key.` and its final value.
pub open spec fn subtree_entries(s: Seq<(Seq<char>, Seq<RecordView>)>, key: Seq<char>) -> Seq<(Seq<char>, JsonData)>
    decreases s.len(),
{
    if s.len() == 0 {
        Seq::empty()
    } else {
        let p = subtree_entries(s.drop_last(), key);
        if is_prefix(key.push('.'), s.last().0) {
            p.push((s.last().0.skip(key.len() + 1int), s.last().1.last().value))
        } else {
            p
        }
    }
}

/// The value of `key`: its final value when it is a leaf; otherwise, when
/// keys lie below it, the object that holds their final values at their
/// dotted paths; otherwise nothing.
pub open spec fn get_spec(s: Seq<(Seq<char>, Seq<RecordView>)>, key: Seq<char>) -> Option<JsonData> {
    match first_lookup(s, key) {
        Some(h) => Some(h.last().value),
        None => {
            let sub = subtree_entries(s, key);
            if sub.len() == 0 {
                None
            } else {
                Some(build_tree(sub))
            }
        },
    }
}

/// Every key with its final value, in order.
pub open spec fn final_values(s: Seq<(Seq<char>, Seq<RecordView>)>) -> Seq<(Seq<char>, JsonData)> {
    s.map_values(|e: (Seq<char>, Seq<RecordView>)| (e.0, e.1.last().value))
}

/// One line of an override history: its 1-based number, the source kind
/// and location, and the value.
pub open spec fn record_line(number: nat, r: RecordView) -> Seq<char> {
    "    "@ + decimal_text(number) + ". "@ + r.source.kind.label_text() + " @ "@ + r.source.location + " => "@
        + value_text(r.value) + "\n"@
}

/// The lines of an override history, oldest first.
pub open spec fn history_lines(h: Seq<RecordView>) -> Seq<char>
    decreases h.len(),
{
    if h.len() == 0 {
        Seq::empty()
    } else {
        history_lines(h.drop_last()) + record_line(h.len(), h.last())
    }
}

/// The provenance block of one key: its final value, the source of that
/// value, and the whole override history.
pub open spec fn entry_debug_text(key: Seq<char>, h: Seq<RecordView>) -> Seq<char> {
    key + " = "@ + value_text(h.last().value) + "\n"@ + "  final_source: "@ + h.last().source.kind.label_text()
        + " @ "@ + h.last().source.location + " (level "@ + decimal_text(h.last().source.level as nat) + ")\n"@
        + "  override_history:\n"@ + history_lines(h)
}

/// The provenance blocks of all keys, in key order.
pub open spec fn debug_text(s: Seq<(Seq<char>, Seq<RecordView>)>) -> Seq<char>
    decreases s.len(),
{
    if s.len() == 0 {
        Seq::empty()
    } else {
        debug_text(s.drop_last()) + entry_debug_text(s.last().0, s.last().1)
    }
}

impl ResolvedEntry {
    /// The final value: that of the newest record.
    fn final_value(&self) -> (r: JsonValue)
        requires
            self@.len() > 0,
        ensures
            r.data() == self@.last().value,
    {
        let n = self.history.len();
        self.history[n - 1].value.copy()
    }
}

fn push_str(out: &mut String, t: &str)
    ensures
        final(out)@ == old(out)@ + t@,
{
    crate::text::append_str(out, t);
}

impl ResolvedConfig {
    /// The resolved value of `key` (see `get_spec`): a leaf's final value,
    /// or the object assembled from the keys below it.
    pub fn get(&self, key: &str) -> (r: Option<JsonValue>)
        ensures
            match r {
                Some(v) => get_spec(self@.entries, key@) == Some(v.data()),
                None => get_spec(self@.entries, key@) is None,
            },
            entries_wf(self@.entries),
    {
        proof { use_type_invariant(self); }
        let ghost s = entries_view(self.entries@);
        match find_key(&self.entries, key) {
            Some(i) => {
                proof {
                    assert forall|j: int| 0 <= j < i implies s[j].0 != key@ by {}
                    crate::keyed::lemma_first_lookup(s, key@, i as int);
                    assert(s[i as int].1.len() > 0);
                }
                return Some(self.entries[i].1.final_value());
            },
            None => {
                proof {
                    assert forall|j: int| 0 <= j < s.len() implies s[j].0 != key@ by {
                        if s[j].0 == key@ { assert(self.entries@[j].0@ == key@); }
                    }
                    crate::keyed::lemma_first_lookup(s, key@, s.len() as int);
                }
            },
        }
        let mut prefix = chars_of(key);
        prefix.push('.');
        let mut root = JsonValue::Object(Vec::new());
        let mut any = false;
        proof {
            assert(s.take(0) =~= Seq::<(Seq<char>, Seq<RecordView>)>::empty());
            crate::value::lemma_members_data(Seq::<(String, JsonValue)>::empty());
            assert(members_data(Seq::<(String, JsonValue)>::empty()) =~= Seq::<(Seq<char>, JsonData)>::empty());
        }
        for i in 0..self.entries.len()
            invariant
                s == entries_view(self.entries@),
                entries_wf(s),
                prefix@ == key@.push('.'),
                root.data() == build_tree(subtree_entries(s.take(i as int), key@)),
                any == (subtree_entries(s.take(i as int), key@).len() > 0),
        {
            let ghost t = s.take(i + 1);
            proof {
                assert(t.drop_last() =~= s.take(i as int));
                assert(t.last() == s[i as int]);
                assert(s[i as int] == (self.entries@[i as int].0@, self.entries@[i as int].1@));
            }
            let kc = chars_of(self.entries[i].0.as_str());
            if starts_with(&kc, &prefix) {
                let suffix = crate::text::string_of_range(&kc, prefix.len(), kc.len());
                proof { assert(s[i as int].1.len() > 0); }
                let v = self.entries[i].1.final_value();
                let ghost old_root = root.data();
                root = insert_value_at_path(root, suffix.as_str(), v);
                any = true;
                proof {
                    assert(kc@.subrange(prefix@.len() as int, kc@.len() as int) =~= s[i as int].0.skip(key@.len() + 1int));
                    let p = subtree_entries(s.take(i as int), key@);
                    let x = (s[i as int].0.skip(key@.len() + 1int), s[i as int].1.last().value);
                    assert(subtree_entries(t, key@) == p.push(x));
                    assert(p.push(x).drop_last() =~= p);
                    assert(build_tree(p.push(x)) == crate::tree::insert_at_key(build_tree(p), x.0, x.1));
                }
            } else {
                proof {
                    assert(subtree_entries(t, key@) == subtree_entries(s.take(i as int), key@));
                }
            }
        }
        proof {
            assert(s.take(s.len() as int) == s);
        }
        if any {
            Some(root)
        } else {
            None
        }
    }

    /// The resolved configuration as pretty TOML text: every key's final
    /// value placed at its dotted path (see `toml_text_spec`).
    pub fn emit_toml(&self) -> (r: Result<String, LccpError>)
        ensures
            match r {
                Ok(t) => toml_text_spec(build_tree(final_values(self@.entries))) == Ok::<Seq<char>, ErrorView>(t@),
                Err(e) => toml_text_spec(build_tree(final_values(self@.entries))) == Err::<Seq<char>, ErrorView>(e@),
            },
    {
        proof { use_type_invariant(self); }
        let ghost s = entries_view(self.entries@);
        let ghost f = final_values(s);
        let mut root = JsonValue::Object(Vec::new());
        proof {
            assert(f.take(0) =~= Seq::<(Seq<char>, JsonData)>::empty());
            crate::value::lemma_members_data(Seq::<(String, JsonValue)>::empty());
            assert(members_data(Seq::<(String, JsonValue)>::empty()) =~= Seq::<(Seq<char>, JsonData)>::empty());
        }
        for i in 0..self.entries.len()
            invariant
                s == entries_view(self.entries@),
                f == final_values(s),
                entries_wf(s),
                root.data() == build_tree(f.take(i as int)),
        {
            proof {
                assert(f.take(i + 1).drop_last() =~= f.take(i as int));
                assert(s[i as int] == (self.entries@[i as int].0@, self.entries@[i as int].1@));
                assert(s[i as int].1.len() > 0);
            }
            let v = self.entries[i].1.final_value();
            root = insert_value_at_path(root, self.entries[i].0.as_str(), v);
        }
        proof {
            assert(f.take(f.len() as int) == f);
        }
        toml_text(&root)
    }

    /// The provenance report: for every key in order, its final value, the
    /// source of that value and its whole override history (see
    /// `debug_text`).
    pub fn debug_output(&self) -> (r: String)
        ensures
            r@ == debug_text(self@.entries),
    {
        proof { use_type_invariant(self); }
        let ghost s = entries_view(self.entries@);
        let mut out = String::new();
        proof {
            assert(s.take(0) =~= Seq::<(Seq<char>, Seq<RecordView>)>::empty());
        }
        for i in 0..self.entries.len()
            invariant
                s == entries_view(self.entries@),
                forall|j: int| 0 <= j < s.len() ==> (#[trigger] s[j]).1.len() > 0,
                out@ == debug_text(s.take(i as int)),
        {
            proof {
                assert(s.take(i + 1).drop_last() =~= s.take(i as int));
                assert(s[i as int] == (self.entries@[i as int].0@, self.entries@[i as int].1@));
            }
            push_entry_debug(&mut out, self.entries[i].0.as_str(), &self.entries[i].1);
        }
        proof {
            assert(s.take(s.len() as int) == s);
        }
        out
    }
}

/// Appends the provenance block of one key (see `entry_debug_text`).
fn push_entry_debug(out: &mut String, key: &str, entry: &ResolvedEntry)
    requires
        entry@.len() > 0,
    ensures
        final(out)@ == old(out)@ + entry_debug_text(key@, entry@),
{
    let h = &entry.history;
    let n = h.len();
    let last = &h[n - 1];
    push_str(out, key);
    push_str(out, " = ");
    push_str(out, render_value(&last.value).as_str());
    push_str(out, "\n");
    push_str(out, "  final_source: ");
    push_str(out, last.source.kind.label().as_str());
    push_str(out, " @ ");
    push_str(out, last.source.location.as_str());
    push_str(out, " (level ");
    push_decimal(out, last.source.precedence_level as u64);
    push_str(out, ")\n");
    push_str(out, "  override_history:\n");
    push_history_lines(out, h);
    proof {
        assert(records_view(h@).last() == last@);
        assert(final(out)@ =~= old(out)@ + entry_debug_text(key@, entry@));
    }
}

/// Appends one line of an override history (see `record_line`).
fn push_record_line(out: &mut String, number: u64, r: &OverrideRecord)
    ensures
        final(out)@ == old(out)@ + record_line(number as nat, r@),
{
    push_str(out, "    ");
    push_decimal(out, number);
    push_str(out, ". ");
    push_str(out, r.source.kind.label().as_str());
    push_str(out, " @ ");
    push_str(out, r.source.location.as_str());
    push_str(out, " => ");
    push_str(out, render_value(&r.value).as_str());
    push_str(out, "\n");
    proof {
        assert(final(out)@ =~= old(out)@ + record_line(number as nat, r@));
    }
}

/// Appends the lines of an override history (see `history_lines`).
fn push_history_lines(out: &mut String, h: &Vec<OverrideRecord>)
    ensures
        final(out)@ == old(out)@ + history_lines(records_view(h@)),
{
    let ghost hv = records_view(h@);
    let ghost head = out@;
    proof {
        assert(hv.take(0) =~= Seq::<RecordView>::empty());
        assert(head + history_lines(hv.take(0)) =~= head);
    }
    for j in 0..h.len()
        invariant
            hv == records_view(h@),
            out@ == head + history_lines(hv.take(j as int)),
    {
        proof {
            assert(hv.take(j + 1).drop_last() =~= hv.take(j as int));
            assert(hv.take(j + 1).last() == h@[j as int]@);
        }
        let ghost before = out@;
        push_record_line(out, (j + 1) as u64, &h[j]);
        proof {
            assert(hv.take(j + 1).len() == j + 1);
            assert(history_lines(hv.take(j + 1)) == history_lines(hv.take(j as int)) + record_line((j + 1) as nat, h@[j as int]@));
            assert(out@ =~= head + history_lines(hv.take(j + 1)));
        }
    }
    proof {
        assert(hv.take(h@.len() as int) == hv);
    }
}

} // verus!
