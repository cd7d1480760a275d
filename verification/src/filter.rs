//! RUST_LOG-style per-target level filtering.
//!
//! A [`TargetFilter`] is parsed from a directive string such as
//! `"myapp=debug,hyper=warn"` and consulted at log time, so verbosity can be
//! tuned per module instead of through a single global level.

use vstd::prelude::*;

use crate::level::{level_from_name, Level};
use crate::text::{chars_of, is_whitespace, string_of, trim, trim_end, trim_start, trimmed, trimmed_range};

verus! {

/// Environment variable from which the logger reads its default filter.
pub const DEFAULT_FILTER_ENV: &'static str = "XOSLOG";

/// A single `target=level` directive; an empty target is the global default.
#[derive(Debug)]
struct Directive {
    target: String,
    level: Level,
}

/// A directive as a pair of its target's characters and its level.
pub type DirectiveView = (Seq<char>, Level);

/// The index of the first `c` in `s` (meaningful when `s` contains `c`).
pub open spec fn first_index_of(s: Seq<char>, c: char) -> int {
    choose|i: int| 0 <= i < s.len() && s[i] == c && forall|k: int| 0 <= k < i ==> s[k] != c
}

/// The part of `s` before the first `c`; all of `s` when there is none.
pub open spec fn before_first(s: Seq<char>, c: char) -> Seq<char> {
    if s.contains(c) {
        s.take(first_index_of(s, c))
    } else {
        s
    }
}

/// The pieces of `s` between occurrences of `sep`, as `str::split` yields
/// them (one empty piece for an empty `s`).
pub open spec fn split(s: Seq<char>, sep: char) -> Seq<Seq<char>>
    decreases s.len(),
{
    if s.len() == 0 {
        seq![Seq::<char>::empty()]
    } else {
        let rest = split(s.drop_last(), sep);
        if s.last() == sep {
            rest.push(Seq::<char>::empty())
        } else {
            rest.update(rest.len() - 1, rest.last().push(s.last()))
        }
    }
}

/// The directive that a non-empty, trimmed piece `raw` of a spec denotes,
/// or `None` when it is malformed and skipped:
///
/// * no `=`: a level name is the global default (empty target); any other
///   token enables that target at `Trace`;
/// * one `=`: `target=level` with the level trimmed; an empty level enables
///   the target at `Trace`, unless the target is empty too; an unknown level
///   is skipped;
/// * two or more `=`: skipped.
pub open spec fn parse_directive(raw: Seq<char>) -> Option<DirectiveView> {
    if !raw.contains('=') {
        match level_from_name(raw) {
            Some(l) => Some((Seq::<char>::empty(), l)),
            None => Some((raw, Level::Trace)),
        }
    } else {
        let k = first_index_of(raw, '=');
        let name = raw.take(k);
        let value = trim(raw.skip(k + 1));
        if raw.skip(k + 1).contains('=') {
            None
        } else if value.len() == 0 {
            if name.len() == 0 {
                None
            } else {
                Some((name, Level::Trace))
            }
        } else {
            match level_from_name(value) {
                Some(l) => Some((name, l)),
                None => None,
            }
        }
    }
}

/// The index of a directive of `ds` for target `t` (meaningful when there
/// is one).
pub open spec fn target_index(ds: Seq<DirectiveView>, t: Seq<char>) -> int {
    choose|i: int| 0 <= i < ds.len() && ds[i].0 == t
}

/// `ds` with the directive for target `t` set to level `l`: an existing
/// directive for `t` is replaced in place, otherwise one is appended.
pub open spec fn upsert(ds: Seq<DirectiveView>, t: Seq<char>, l: Level) -> Seq<DirectiveView> {
    if exists|i: int| 0 <= i < ds.len() && ds[i].0 == t {
        ds.update(target_index(ds, t), (t, l))
    } else {
        ds.push((t, l))
    }
}

/// The directives of the comma-separated `pieces`, taken left to right;
/// blank pieces and malformed ones are skipped.
pub open spec fn directives_of_pieces(pieces: Seq<Seq<char>>) -> Seq<DirectiveView>
    decreases pieces.len(),
{
    if pieces.len() == 0 {
        Seq::empty()
    } else {
        let prev = directives_of_pieces(pieces.drop_last());
        let raw = trim(pieces.last());
        if raw.len() == 0 {
            prev
        } else {
            match parse_directive(raw) {
                Some(d) => upsert(prev, d.0, d.1),
                None => prev,
            }
        }
    }
}

/// The directives that a spec string denotes: the part before any `/` is
/// split at commas, each piece trimmed and parsed.
pub open spec fn parsed_directives(spec: Seq<char>) -> Seq<DirectiveView> {
    directives_of_pieces(split(before_first(spec, '/'), ','))
}

/// No two directives share a target.
pub open spec fn targets_distinct(ds: Seq<DirectiveView>) -> bool {
    forall|i: int, j: int| 0 <= i < ds.len() && 0 <= j < ds.len() && i != j ==> ds[i].0 != ds[j].0
}

/// Whether a directive for module `d` applies to `target`: an exact hit or
/// a `::`-delimited descendant (`myapp` matches `myapp::server`, not
/// `myapp_client`).
pub open spec fn target_matches(d: Seq<char>, target: Seq<char>) -> bool {
    ||| target == d
    ||| d.len() + 2 <= target.len() && target.take(d.len() as int) == d && target[d.len() as int]
        == ':' && target[d.len() + 1int] == ':'
}

/// Directive `i` is a non-global directive that applies to `target`.
pub open spec fn applies(ds: Seq<DirectiveView>, target: Seq<char>, i: int) -> bool {
    0 <= i < ds.len() && ds[i].0.len() > 0 && target_matches(ds[i].0, target)
}

/// The level of the global (empty-target) directive, if any.
pub open spec fn global_level(ds: Seq<DirectiveView>) -> Option<Level> {
    if exists|i: int| 0 <= i < ds.len() && ds[i].0.len() == 0 {
        Some(ds[choose|i: int| 0 <= i < ds.len() && ds[i].0.len() == 0].1)
    } else {
        None
    }
}

/// The level for targets matched by no directive: the global directive's,
/// else `base`.
pub open spec fn fallback_level(ds: Seq<DirectiveView>, base: Level) -> Level {
    match global_level(ds) {
        Some(l) => l,
        None => base,
    }
}

/// The threshold for `target`: the level of the applying directive with the
/// longest target, or [`fallback_level`] when none applies.
pub open spec fn threshold_for(ds: Seq<DirectiveView>, target: Seq<char>, base: Level) -> Level {
    if exists|i: int| applies(ds, target, i) {
        ds[choose|i: int|
            applies(ds, target, i) && forall|j: int| applies(ds, target, j) ==> ds[j].0.len() <= ds[i].0.len()].1
    } else {
        fallback_level(ds, base)
    }
}

/// Whether a record at `level` for `target` passes: never for `Off`, never
/// when the threshold is `Off`, otherwise when `level` is at least the
/// threshold.
pub open spec fn passes(ds: Seq<DirectiveView>, target: Seq<char>, level: Level, base: Level) -> bool {
    let t = threshold_for(ds, target, base);
    level != Level::Off && t != Level::Off && level.spec_rank() >= t.spec_rank()
}

/// A parsed set of per-target level directives.
///
/// The grammar mirrors `RUST_LOG`: `debug` sets the global default,
/// `myapp=debug` sets the threshold of `myapp` and its descendants, a bare
/// `hyper` or `hyper=` enables a target at `trace`, `myapp=off` silences it.
/// Levels are case-insensitive and `warning` means `warn`. Malformed
/// directives are skipped, a `/regex` suffix is ignored, and a later
/// directive for the same target replaces the earlier one. The longest
/// matching directive wins.
#[derive(Debug)]
pub struct TargetFilter {
    directives: Vec<Directive>,
}

impl View for TargetFilter {
    type V = Seq<DirectiveView>;

    closed spec fn view(&self) -> Seq<DirectiveView> {
        view_of(self.directives@)
    }
}

spec fn view_of(ds: Seq<Directive>) -> Seq<DirectiveView> {
    ds.map_values(|d: Directive| (d.target@, d.level))
}

impl Clone for TargetFilter {
    fn clone(&self) -> (r: TargetFilter)
        ensures
            r@ == self@,
    {
        proof {
            use_type_invariant(self);
        }
        let mut directives: Vec<Directive> = Vec::new();
        let mut i: usize = 0;
        while i < self.directives.len()
            invariant
                i <= self.directives@.len(),
                directives@.len() == i,
                view_of(directives@) == view_of(self.directives@).take(i as int),
            decreases self.directives@.len() - i,
        {
            let d = &self.directives[i];
            let ghost before = directives@;
            directives.push(Directive { target: d.target.clone(), level: d.level });
            i = i + 1;
            assert forall|k: int| 0 <= k < i implies view_of(directives@)[k] == view_of(
                self.directives@,
            ).take(i as int)[k] by {
                if k < i - 1 {
                    assert(directives@[k] == before[k]);
                }
            }
            assert(view_of(directives@) =~= view_of(self.directives@).take(i as int));
        }
        assert(view_of(self.directives@).take(i as int) =~= view_of(self.directives@));
        TargetFilter { directives }
    }
}

impl Default for TargetFilter {
    /// An empty filter, which leaves the base level untouched.
    fn default() -> (f: TargetFilter)
        ensures
            f@ == Seq::<DirectiveView>::empty(),
    {
        TargetFilter::new()
    }
}

impl TargetFilter {
    #[verifier::type_invariant]
    spec fn wf(self) -> bool {
        targets_distinct(self@)
    }

    /// An empty filter.
    pub fn new() -> (f: TargetFilter)
        ensures
            f@ == Seq::<DirectiveView>::empty(),
    {
        let f = TargetFilter { directives: Vec::new() };
        assert(f@ =~= Seq::<DirectiveView>::empty());
        f
    }

    /// Parse a directive string such as `"myapp=debug,hyper=warn"`.
    ///
    /// Parsing is lenient: malformed directives are skipped, so it never
    /// fails. An empty or whitespace-only spec yields an empty filter.
    pub fn parse(spec: &str) -> (f: TargetFilter)
        ensures
            f@ == parsed_directives(spec@),
    {
        let s = chars_of(spec);
        let n = s.len();
        let mut directives: Vec<Directive> = Vec::new();
        let mut cur: Vec<char> = Vec::new();
        let ghost mut done: Seq<Seq<char>> = Seq::empty();
        let mut i: usize = 0;
        assert(s@.take(0) =~= Seq::<char>::empty());
        assert(split(s@.take(0), ',') =~= seq![Seq::<char>::empty()]);
        while i < n && s[i] != '/'
            invariant
                n == s@.len(),
                i <= n,
                forall|k: int| 0 <= k < i ==> s@[k] != '/',
                split(s@.take(i as int), ',') == done.push(cur@),
                view_of(directives@) == directives_of_pieces(done),
                targets_distinct(view_of(directives@)),
            decreases n - i,
        {
            let c = s[i];
            proof {
                assert(s@.take(i + 1).drop_last() =~= s@.take(i as int));
                assert(s@.take(i + 1).last() == c);
            }
            if c == ',' {
                proof {
                    assert(done.push(cur@).drop_last() =~= done);
                }
                apply_piece(&mut directives, &cur);
                proof {
                    done = done.push(cur@);
                }
                cur = Vec::new();
                assert(split(s@.take(i + 1), ',') =~= done.push(cur@));
            } else {
                let ghost old_cur = cur@;
                cur.push(c);
                assert(split(s@.take(i + 1), ',') =~= done.push(cur@));
            }
            i = i + 1;
        }
        proof {
            assert(done.push(cur@).drop_last() =~= done);
            if i < n {
                assert(s@.contains('/'));
                let j = first_index_of(s@, '/');
                assert(j == i as int) by {
                    if j < i {
                    } else if j > i {
                    }
                }
                assert(before_first(s@, '/') == s@.take(i as int));
            } else {
                assert(s@.take(i as int) =~= s@);
                assert(!s@.contains('/'));
            }
        }
        apply_piece(&mut directives, &cur);
        TargetFilter { directives }
    }

    /// The filter given by the value of an environment variable: none when
    /// the variable is unset (`None`), empty or whitespace-only, otherwise
    /// the parsed value.
    pub fn from_env_value(value: Option<String>) -> (r: Option<TargetFilter>)
        ensures
            match value {
                None => r is None,
                Some(v) => if trim(v@).len() == 0 {
                    r is None
                } else {
                    r matches Some(f) && f@ == parsed_directives(v@)
                },
            },
    {
        match value {
            None => None,
            Some(v) => {
                let chars = chars_of(v.as_str());
                if trimmed(&chars).len() == 0 {
                    None
                } else {
                    Some(TargetFilter::parse(v.as_str()))
                }
            },
        }
    }

    /// Whether this filter contains no directives at all.
    pub fn is_empty(&self) -> (r: bool)
        ensures
            r == (self@.len() == 0),
    {
        self.directives.len() == 0
    }

    /// The global default level, if a bare-level directive was given.
    pub fn global_default(&self) -> (r: Option<Level>)
        ensures
            r == global_level(self@),
    {
        proof {
            use_type_invariant(self);
        }
        let mut i: usize = 0;
        while i < self.directives.len()
            invariant
                i <= self@.len(),
                self@.len() == self.directives@.len(),
                targets_distinct(self@),
                forall|k: int| 0 <= k < i ==> self@[k].0.len() != 0,
            decreases self@.len() - i,
        {
            assert(self@[i as int] == (self.directives@[i as int].target@, self.directives@[i as int].level));
            if self.directives[i].target.as_str().is_empty() {
                proof {
                    assert(self@[i as int].0.len() == 0);
                    let c = choose|k: int| 0 <= k < self@.len() && self@[k].0.len() == 0;
                    assert(self@[c].0 =~= self@[i as int].0);
                }
                return Some(self.directives[i].level);
            }
            i = i + 1;
        }
        None
    }

    /// The default level applied to targets matched by no directive: the
    /// global directive's level when present, otherwise `base`.
    pub fn default_level(&self, base: Level) -> (r: Level)
        ensures
            r == fallback_level(self@, base),
    {
        match self.global_default() {
            Some(l) => l,
            None => base,
        }
    }

    /// The effective threshold level for `target`, using `base` as the
    /// default: the most specific (longest) matching directive wins.
    pub fn effective_level(&self, target: &str, base: Level) -> (r: Level)
        ensures
            r == threshold_for(self@, target@, base),
    {
        let t = chars_of(target);
        self.effective_level_chars(&t, base)
    }

    fn effective_level_chars(&self, t: &Vec<char>, base: Level) -> (r: Level)
        ensures
            r == threshold_for(self@, t@, base),
    {
        proof {
            use_type_invariant(self);
        }
        let ghost ds = self@;
        let mut best: Option<(usize, Level)> = None;
        let ghost mut best_index: int = -1;
        let mut i: usize = 0;
        while i < self.directives.len()
            invariant
                ds == self@,
                targets_distinct(ds),
                i <= ds.len(),
                ds.len() == self.directives@.len(),
                best is None ==> forall|k: int| 0 <= k < i ==> !applies(ds, t@, k),
                best matches Some(b) ==> {
                    &&& 0 <= best_index < i
                    &&& applies(ds, t@, best_index)
                    &&& b.0 == ds[best_index].0.len()
                    &&& b.1 == ds[best_index].1
                    &&& forall|k: int| 0 <= k < i && applies(ds, t@, k) ==> ds[k].0.len() <= b.0
                },
            decreases ds.len() - i,
        {
            let d = &self.directives[i];
            assert(ds[i as int] == (d.target@, d.level));
            if !d.target.as_str().is_empty() {
                let dt = chars_of(d.target.as_str());
                if module_matches_chars(&dt, t) {
                    let len = dt.len();
                    match best {
                        Some((best_len, _)) if best_len > len => {},
                        _ => {
                            best = Some((len, d.level));
                            proof {
                                best_index = i as int;
                            }
                        },
                    }
                }
            }
            i = i + 1;
        }
        match best {
            Some((_, level)) => {
                proof {
                    let c = choose|k: int|
                        applies(ds, t@, k) && forall|j: int| applies(ds, t@, j) ==> ds[j].0.len() <= ds[k].0.len();
                    assert(applies(ds, t@, best_index) && forall|j: int|
                        applies(ds, t@, j) ==> ds[j].0.len() <= ds[best_index].0.len());
                    lemma_same_length_matches_equal(ds[c].0, ds[best_index].0, t@);
                }
                level
            },
            None => self.default_level(base),
        }
    }

    /// Whether a record for `target` at `level` passes the filter, using
    /// `base` as the default level for unmatched targets.
    pub fn enabled(&self, target: &str, level: Level, base: Level) -> (r: bool)
        ensures
            r == passes(self@, target@, level, base),
    {
        if level == Level::Off {
            return false;
        }
        let effective = self.effective_level(target, base);
        effective != Level::Off && level.at_least(effective)
    }
}

/// Two directives of the same length that both apply to `target` are the
/// same module.
proof fn lemma_same_length_matches_equal(d1: Seq<char>, d2: Seq<char>, target: Seq<char>)
    requires
        target_matches(d1, target),
        target_matches(d2, target),
        d1.len() == d2.len(),
    ensures
        d1 == d2,
{
    if target == d1 {
        assert(!(d2.len() + 2 <= target.len()));
    } else if target == d2 {
        assert(!(d1.len() + 2 <= target.len()));
    } else {
        assert(d1 =~= target.take(d1.len() as int));
        assert(d2 =~= target.take(d2.len() as int));
    }
}

/// Setting a target never leaves two directives for one target.
pub proof fn lemma_upsert_keeps_targets_distinct(ds: Seq<DirectiveView>, t: Seq<char>, l: Level)
    requires
        targets_distinct(ds),
    ensures
        targets_distinct(upsert(ds, t, l)),
{
    if exists|i: int| 0 <= i < ds.len() && ds[i].0 == t {
        let c = target_index(ds, t);
        let r = upsert(ds, t, l);
        assert forall|a: int, b: int|
            0 <= a < r.len() && 0 <= b < r.len() && a != b implies r[a].0 != r[b].0 by {
            assert(r[a].0 == ds[a].0 && r[b].0 == ds[b].0);
        }
    } else {
        let r = upsert(ds, t, l);
        assert forall|a: int, b: int|
            0 <= a < r.len() && 0 <= b < r.len() && a != b implies r[a].0 != r[b].0 by {
            if a < ds.len() && b < ds.len() {
                assert(r[a] == ds[a] && r[b] == ds[b]);
            } else if a < ds.len() {
                assert(r[a] == ds[a]);
            } else {
                assert(r[b] == ds[b]);
            }
        }
    }
}

/// A string without the separator splits into itself alone.
proof fn lemma_split_without_separator(s: Seq<char>, sep: char)
    requires
        !s.contains(sep),
    ensures
        split(s, sep) == seq![s],
    decreases s.len(),
{
    if s.len() == 0 {
        assert(s =~= Seq::<char>::empty());
    } else {
        assert(!s.drop_last().contains(sep)) by {
            if s.drop_last().contains(sep) {
                let k = choose|k: int| 0 <= k < s.drop_last().len() && s.drop_last()[k] == sep;
                assert(s[k] == sep);
            }
        }
        lemma_split_without_separator(s.drop_last(), sep);
        assert(s.last() != sep) by {
            assert(s[s.len() - 1] == s.last());
        }
        assert(s.drop_last().push(s.last()) =~= s);
        let rest = split(s.drop_last(), sep);
        assert(rest.update(rest.len() - 1, rest.last().push(s.last())) =~= seq![s]);
    }
}

/// Trimming a string of whitespace leaves nothing.
proof fn lemma_trim_all_whitespace(s: Seq<char>)
    requires
        forall|i: int| 0 <= i < s.len() ==> is_whitespace(#[trigger] s[i]),
    ensures
        trim(s).len() == 0,
    decreases s.len(),
{
    if s.len() > 0 {
        assert forall|i: int| 0 <= i < s.drop_first().len() implies is_whitespace(
            #[trigger] s.drop_first()[i],
        ) by {
            assert(s.drop_first()[i] == s[i + 1]);
        }
        lemma_trim_all_whitespace(s.drop_first());
        assert(trim_start(s) == trim_start(s.drop_first()));
    }
}

/// An empty or whitespace-only spec yields an empty filter, which leaves
/// the logger's base level untouched.
pub proof fn lemma_blank_spec_is_empty(spec: Seq<char>)
    requires
        forall|i: int| 0 <= i < spec.len() ==> is_whitespace(#[trigger] spec[i]),
    ensures
        parsed_directives(spec) == Seq::<DirectiveView>::empty(),
{
    assert(!spec.contains('/')) by {
        if spec.contains('/') {
            let k = choose|k: int| 0 <= k < spec.len() && spec[k] == '/';
            assert(is_whitespace(spec[k]));
        }
    }
    assert(!spec.contains(',')) by {
        if spec.contains(',') {
            let k = choose|k: int| 0 <= k < spec.len() && spec[k] == ',';
            assert(is_whitespace(spec[k]));
        }
    }
    lemma_split_without_separator(spec, ',');
    lemma_trim_all_whitespace(spec);
    let pieces = seq![spec];
    assert(before_first(spec, '/') == spec);
    assert(pieces.drop_last() =~= Seq::<Seq<char>>::empty());
    assert(pieces.last() == spec);
    assert(directives_of_pieces(pieces.drop_last()) == Seq::<DirectiveView>::empty());
    assert(directives_of_pieces(pieces) == Seq::<DirectiveView>::empty());
}

/// A later directive for a target replaces the earlier one: after setting
/// `t` to `l`, the directive for `t` has level `l`, and every directive for
/// another target is unchanged.
pub proof fn lemma_later_directive_replaces_earlier(ds: Seq<DirectiveView>, t: Seq<char>, l: Level)
    requires
        targets_distinct(ds),
    ensures
        upsert(ds, t, l).contains((t, l)),
        forall|d: DirectiveView| d.0 != t ==> (ds.contains(d) <==> upsert(ds, t, l).contains(d)),
{
    let r = upsert(ds, t, l);
    if exists|i: int| 0 <= i < ds.len() && ds[i].0 == t {
        let c = target_index(ds, t);
        assert(r[c] == (t, l));
        assert forall|d: DirectiveView| d.0 != t implies (ds.contains(d) <==> r.contains(d)) by {
            if ds.contains(d) {
                let k = choose|k: int| 0 <= k < ds.len() && ds[k] == d;
                assert(r[k] == d);
            }
            if r.contains(d) {
                let k = choose|k: int| 0 <= k < r.len() && r[k] == d;
                assert(ds[k] == d);
            }
        }
    } else {
        assert(r[ds.len() as int] == (t, l));
        assert forall|d: DirectiveView| d.0 != t implies (ds.contains(d) <==> r.contains(d)) by {
            if ds.contains(d) {
                let k = choose|k: int| 0 <= k < ds.len() && ds[k] == d;
                assert(r[k] == d);
            }
            if r.contains(d) {
                let k = choose|k: int| 0 <= k < r.len() && r[k] == d;
                assert(ds[k] == d);
            }
        }
    }
}

/// A parsed filter never holds two directives for one target.
pub proof fn lemma_parsed_targets_distinct(spec: Seq<char>)
    ensures
        targets_distinct(parsed_directives(spec)),
{
    lemma_pieces_targets_distinct(split(before_first(spec, '/'), ','));
}

proof fn lemma_pieces_targets_distinct(pieces: Seq<Seq<char>>)
    ensures
        targets_distinct(directives_of_pieces(pieces)),
    decreases pieces.len(),
{
    if pieces.len() > 0 {
        lemma_pieces_targets_distinct(pieces.drop_last());
        let prev = directives_of_pieces(pieces.drop_last());
        let raw = trim(pieces.last());
        if raw.len() > 0 {
            if let Some(d) = parse_directive(raw) {
                lemma_upsert_keeps_targets_distinct(prev, d.0, d.1);
            }
        }
    }
}

/// The well-formed directives among the comma-separated `pieces`, in
/// order: blank and malformed pieces are skipped.
pub open spec fn well_formed_of_pieces(pieces: Seq<Seq<char>>) -> Seq<DirectiveView>
    decreases pieces.len(),
{
    if pieces.len() == 0 {
        Seq::empty()
    } else {
        let prev = well_formed_of_pieces(pieces.drop_last());
        let raw = trim(pieces.last());
        if raw.len() == 0 {
            prev
        } else {
            match parse_directive(raw) {
                Some(d) => prev.push(d),
                None => prev,
            }
        }
    }
}

/// The well-formed directives of a spec string, in order, from the part
/// before any `/`.
pub open spec fn well_formed_directives(spec: Seq<char>) -> Seq<DirectiveView> {
    well_formed_of_pieces(split(before_first(spec, '/'), ','))
}

/// Whether some directive of `ds` is for target `t`.
pub open spec fn has_target(ds: Seq<DirectiveView>, t: Seq<char>) -> bool {
    exists|j: int| 0 <= j < ds.len() && ds[j].0 == t
}

/// The directives `rs` set in turn: each replaces the level of its target
/// or is appended.
spec fn settle(rs: Seq<DirectiveView>) -> Seq<DirectiveView>
    decreases rs.len(),
{
    if rs.len() == 0 {
        Seq::empty()
    } else {
        upsert(settle(rs.drop_last()), rs.last().0, rs.last().1)
    }
}

proof fn lemma_pieces_settle(pieces: Seq<Seq<char>>)
    ensures
        directives_of_pieces(pieces) == settle(well_formed_of_pieces(pieces)),
    decreases pieces.len(),
{
    if pieces.len() > 0 {
        lemma_pieces_settle(pieces.drop_last());
        let prev = well_formed_of_pieces(pieces.drop_last());
        let raw = trim(pieces.last());
        if raw.len() > 0 {
            if let Some(d) = parse_directive(raw) {
                assert(prev.push(d).drop_last() =~= prev);
            }
        }
    }
}

/// Every target of `r` has a directive in `rs`, and every directive of
/// `rs` has its target in `r`.
#[verifier::opaque]
pub open spec fn same_targets(r: Seq<DirectiveView>, rs: Seq<DirectiveView>) -> bool {
    &&& forall|i: int| 0 <= i < r.len() ==> has_target(rs, #[trigger] r[i].0)
    &&& forall|j: int| 0 <= j < rs.len() ==> has_target(r, #[trigger] rs[j].0)
}

/// Each target of `r` carries the level of the last directive of `rs` for
/// it.
#[verifier::opaque]
pub open spec fn last_levels(r: Seq<DirectiveView>, rs: Seq<DirectiveView>) -> bool {
    forall|i: int, j: int|
        0 <= i < r.len() && 0 <= j < rs.len() && #[trigger] rs[j].0 == #[trigger] r[i].0 && (forall|k: int|
            j < k < rs.len() ==> rs[k].0 != r[i].0) ==> r[i].1 == rs[j].1
}

/// The targets of `r` come in the order of their first directive in `rs`:
/// any directive for a later target follows some directive for an earlier
/// one.
#[verifier::opaque]
pub open spec fn first_order(r: Seq<DirectiveView>, rs: Seq<DirectiveView>) -> bool {
    forall|i1: int, i2: int, j2: int|
        #![trigger r[i1], r[i2], rs[j2]]
        0 <= i1 < i2 < r.len() && 0 <= j2 < rs.len() && rs[j2].0 == r[i2].0 ==> has_target(
            rs.take(j2),
            r[i1].0,
        )
}

proof fn lemma_settle_distinct(rs: Seq<DirectiveView>)
    ensures
        targets_distinct(settle(rs)),
    decreases rs.len(),
{
    if rs.len() > 0 {
        lemma_settle_distinct(rs.drop_last());
        lemma_upsert_keeps_targets_distinct(settle(rs.drop_last()), rs.last().0, rs.last().1);
    }
}

proof fn lemma_settle_step(rs: Seq<DirectiveView>)
    requires
        rs.len() > 0,
    ensures
        ({
            let p = settle(rs.drop_last());
            let t = rs.last().0;
            &&& (exists|i: int| 0 <= i < p.len() && p[i].0 == t) ==> settle(rs) == p.update(
                target_index(p, t),
                (t, rs.last().1),
            )
            &&& !(exists|i: int| 0 <= i < p.len() && p[i].0 == t) ==> settle(rs) == p.push(
                (t, rs.last().1),
            )
        }),
{
    let p = settle(rs.drop_last());
    let t = rs.last().0;
    assert(settle(rs) == upsert(p, t, rs.last().1));
    if exists|i: int| 0 <= i < p.len() && p[i].0 == t {
        assert(upsert(p, t, rs.last().1) == p.update(target_index(p, t), (t, rs.last().1)));
    }
}

proof fn lemma_settle_same_targets(rs: Seq<DirectiveView>)
    ensures
        same_targets(settle(rs), rs),
    decreases rs.len(),
{
    reveal(same_targets);
    if rs.len() > 0 {
        let ps = rs.drop_last();
        lemma_settle_same_targets(ps);
        let p = settle(ps);
        let t = rs.last().0;
        let n = ps.len() as int;
        assert(rs[n].0 == t);
        let r = settle(rs);
        lemma_settle_step(rs);
        let found = exists|i: int| 0 <= i < p.len() && p[i].0 == t;
        let c = target_index(p, t);
        if found {
            assert(r == p.update(c, (t, rs.last().1)));
            assert forall|i: int| 0 <= i < r.len() implies has_target(rs, #[trigger] r[i].0) by {
                if i != c {
                    assert(has_target(ps, p[i].0));
                    let j = choose|j: int| 0 <= j < ps.len() && ps[j].0 == p[i].0;
                    assert(rs[j] == ps[j]);
                }
            }
            assert forall|j: int| 0 <= j < rs.len() implies has_target(r, #[trigger] rs[j].0) by {
                if j == n {
                    assert(r[c].0 == rs[j].0);
                } else {
                    assert(rs[j] == ps[j]);
                    assert(has_target(p, ps[j].0));
                    let i = choose|i: int| 0 <= i < p.len() && p[i].0 == ps[j].0;
                    assert(r[i].0 == rs[j].0);
                }
            }
        } else {
            assert(r == p.push((t, rs.last().1)));
            assert forall|i: int| 0 <= i < r.len() implies has_target(rs, #[trigger] r[i].0) by {
                if i < p.len() {
                    assert(r[i] == p[i]);
                    assert(has_target(ps, p[i].0));
                    let j = choose|j: int| 0 <= j < ps.len() && ps[j].0 == p[i].0;
                    assert(rs[j] == ps[j]);
                }
            }
            assert forall|j: int| 0 <= j < rs.len() implies has_target(r, #[trigger] rs[j].0) by {
                if j == n {
                    assert(r[p.len() as int].0 == rs[j].0);
                } else {
                    assert(rs[j] == ps[j]);
                    assert(has_target(p, ps[j].0));
                    let i = choose|i: int| 0 <= i < p.len() && p[i].0 == ps[j].0;
                    assert(r[i] == p[i]);
                }
            }
        }
    }
}

proof fn lemma_settle_last_levels(rs: Seq<DirectiveView>)
    ensures
        last_levels(settle(rs), rs),
    decreases rs.len(),
{
    reveal(last_levels);
    if rs.len() > 0 {
        let ps = rs.drop_last();
        lemma_settle_last_levels(ps);
        lemma_settle_distinct(ps);
        let p = settle(ps);
        let t = rs.last().0;
        let n = ps.len() as int;
        assert(rs[n].0 == t);
        let r = settle(rs);
        let found = exists|i: int| 0 <= i < p.len() && p[i].0 == t;
        let c = target_index(p, t);
        if found {
            assert(r == p.update(c, (t, rs.last().1)));
        } else {
            assert(r == p.push((t, rs.last().1)));
        }
        assert forall|i: int, j: int|
            0 <= i < r.len() && 0 <= j < rs.len() && #[trigger] rs[j].0 == #[trigger] r[i].0 && (forall|k: int|
                j < k < rs.len() ==> rs[k].0 != r[i].0) implies r[i].1 == rs[j].1 by {
            let new_index = if found { c } else { p.len() as int };
            if i == new_index {
                if j < n {
                    assert(rs[n].0 == r[i].0);
                }
            } else {
                assert(r[i] == p[i]);
                assert(p[i].0 != t) by {
                    if found {
                        assert(p[c].0 == t);
                    }
                }
                assert(j < n);
                assert(rs[j] == ps[j]);
                assert forall|k: int| j < k < ps.len() implies ps[k].0 != p[i].0 by {
                    assert(rs[k] == ps[k]);
                }
            }
        }
    }
}

proof fn lemma_settle_first_order(rs: Seq<DirectiveView>)
    ensures
        first_order(settle(rs), rs),
    decreases rs.len(),
{
    reveal(first_order);
    reveal(same_targets);
    if rs.len() > 0 {
        let ps = rs.drop_last();
        lemma_settle_first_order(ps);
        lemma_settle_distinct(ps);
        lemma_settle_same_targets(ps);
        let p = settle(ps);
        let t = rs.last().0;
        let n = ps.len() as int;
        assert(rs[n].0 == t);
        let r = settle(rs);
        lemma_settle_step(rs);
        let found = exists|i: int| 0 <= i < p.len() && p[i].0 == t;
        let c = target_index(p, t);
        if found {
            assert(r == p.update(c, (t, rs.last().1)));
        } else {
            assert(r == p.push((t, rs.last().1)));
        }
        assert forall|i1: int, i2: int, j2: int|
            #![trigger r[i1], r[i2], rs[j2]]
            0 <= i1 < i2 < r.len() && 0 <= j2 < rs.len() && rs[j2].0 == r[i2].0 implies has_target(
                rs.take(j2),
                r[i1].0,
            ) by {
            assert(i1 < p.len());
            assert(r[i1].0 == p[i1].0);
            assert(has_target(ps, p[i1].0));
            if j2 == n {
                let j1 = choose|j1: int| 0 <= j1 < ps.len() && ps[j1].0 == p[i1].0;
                assert(rs.take(j2)[j1] == ps[j1]);
            } else {
                assert(rs[j2] == ps[j2]);
                if !found && i2 == p.len() {
                    assert(has_target(p, ps[j2].0));
                    let i = choose|i: int| 0 <= i < p.len() && p[i].0 == ps[j2].0;
                    assert(p[i].0 == t);
                }
                assert(i2 < p.len());
                assert(r[i2].0 == p[i2].0);
                assert(has_target(ps.take(j2), p[i1].0));
                let j1 = choose|j1: int| 0 <= j1 < ps.take(j2).len() && ps.take(j2)[j1].0 == p[i1].0;
                assert(rs.take(j2)[j1] == ps.take(j2)[j1]);
            }
        }
    }
}

/// What parsing a spec gives: the part before any `/` is split at commas
/// and blank or malformed pieces are skipped; of the well-formed directives
/// that remain, the filter holds one per target, the targets in the order
/// of their first directive, each with the level of its last directive.
pub proof fn lemma_parse_law(spec: Seq<char>)
    ensures
        targets_distinct(parsed_directives(spec)),
        same_targets(parsed_directives(spec), well_formed_directives(spec)),
        last_levels(parsed_directives(spec), well_formed_directives(spec)),
        first_order(parsed_directives(spec), well_formed_directives(spec)),
{
    let ws = well_formed_directives(spec);
    lemma_pieces_settle(split(before_first(spec, '/'), ','));
    lemma_settle_distinct(ws);
    lemma_settle_same_targets(ws);
    lemma_settle_last_levels(ws);
    lemma_settle_first_order(ws);
}

/// A record at level `Off` never passes any filter.
pub proof fn lemma_off_never_passes(ds: Seq<DirectiveView>, target: Seq<char>, base: Level)
    ensures
        !passes(ds, target, Level::Off, base),
{
}

/// Passing is monotone in severity: a record that passes at `lower` also
/// passes at any more severe level short of `Off`.
pub proof fn lemma_passes_monotone(
    ds: Seq<DirectiveView>,
    target: Seq<char>,
    lower: Level,
    higher: Level,
    base: Level,
)
    requires
        passes(ds, target, lower, base),
        lower.spec_rank() <= higher.spec_rank(),
        higher != Level::Off,
    ensures
        passes(ds, target, higher, base),
{
}

/// With no directives the base level applies unchanged.
pub proof fn lemma_empty_filter_uses_base(target: Seq<char>, level: Level, base: Level)
    ensures
        passes(Seq::empty(), target, level, base) == (level != Level::Off && base != Level::Off
            && level.spec_rank() >= base.spec_rank()),
{
    assert(!(exists|i: int| applies(Seq::<DirectiveView>::empty(), target, i)));
    assert(!(exists|i: int|
        0 <= i < Seq::<DirectiveView>::empty().len() && Seq::<DirectiveView>::empty()[i].0.len()
            == 0));
}

/// A directive for module `d` applies to every `::`-delimited descendant.
pub proof fn lemma_descendant_matches(d: Seq<char>, rest: Seq<char>)
    ensures
        target_matches(d, d + seq![':', ':'] + rest),
{
    let target = d + seq![':', ':'] + rest;
    assert(target.take(d.len() as int) =~= d);
    assert(target[d.len() as int] == ':');
    assert(target[d.len() + 1int] == ':');
}

/// A directive for module `d` does not apply to a sibling that merely
/// starts with the same characters (`myapp` vs. `myapp_client`).
pub proof fn lemma_sibling_does_not_match(d: Seq<char>, c: char, rest: Seq<char>)
    requires
        c != ':',
    ensures
        !target_matches(d, d + seq![c] + rest),
{
    let target = d + seq![c] + rest;
    assert(target[d.len() as int] == c);
    assert(target.len() != d.len());
}

/// Whether `directive` matches `target`: an exact hit or a `::`-delimited
/// descendant (`myapp` matches `myapp::server`, not `myapp_client`).
pub fn module_matches(directive: &str, target: &str) -> (r: bool)
    ensures
        r == target_matches(directive@, target@),
{
    let d = chars_of(directive);
    let t = chars_of(target);
    module_matches_chars(&d, &t)
}

fn module_matches_chars(d: &Vec<char>, t: &Vec<char>) -> (r: bool)
    ensures
        r == target_matches(d@, t@),
{
    let dn = d.len();
    let tn = t.len();
    if dn > tn {
        proof {
            if t@ == d@ {
                assert(false);
            }
        }
        return false;
    }
    let mut i: usize = 0;
    while i < dn
        invariant
            dn == d@.len(),
            tn == t@.len(),
            dn <= tn,
            i <= dn,
            forall|k: int| 0 <= k < i ==> t@[k] == d@[k],
        decreases dn - i,
    {
        if t[i] != d[i] {
            proof {
                assert(t@ != d@);
                assert(t@.take(dn as int)[i as int] != d@[i as int]);
            }
            return false;
        }
        i = i + 1;
    }
    assert(t@.take(dn as int) =~= d@);
    if dn == tn {
        assert(t@ =~= d@);
        return true;
    }
    let r = tn - dn >= 2 && t[dn] == ':' && t[dn + 1] == ':';
    proof {
        assert(t@ != d@);
    }
    r
}

/// Adds the directive of one comma-separated piece of a spec.
fn apply_piece(directives: &mut Vec<Directive>, piece: &Vec<char>)
    requires
        targets_distinct(view_of(old(directives)@)),
    ensures
        targets_distinct(view_of(final(directives)@)),
        view_of(final(directives)@) == ({
            let raw = trim(piece@);
            if raw.len() == 0 {
                view_of(old(directives)@)
            } else {
                match parse_directive(raw) {
                    Some(d) => upsert(view_of(old(directives)@), d.0, d.1),
                    None => view_of(old(directives)@),
                }
            }
        }),
{
    let raw = trimmed(piece);
    if raw.len() == 0 {
        return;
    }
    match parse_directive_chars(&raw) {
        Some((target, level)) => upsert_directive(directives, &target, level),
        None => {},
    }
}

/// The directive of a non-empty trimmed piece, as [`parse_directive`].
fn parse_directive_chars(raw: &Vec<char>) -> (r: Option<(Vec<char>, Level)>)
    ensures
        match r {
            Some((t, l)) => parse_directive(raw@) == Some((t@, l)),
            None => parse_directive(raw@) is None,
        },
{
    let n = raw.len();
    let mut k: usize = 0;
    while k < n && raw[k] != '='
        invariant
            n == raw@.len(),
            k <= n,
            forall|j: int| 0 <= j < k ==> raw@[j] != '=',
        decreases n - k,
    {
        k = k + 1;
    }
    if k == n {
        assert(!raw@.contains('='));
        return match Level::parse_chars(raw) {
            Some(l) => Some((Vec::new(), l)),
            None => Some((raw.clone(), Level::Trace)),
        };
    }
    proof {
        assert(raw@.contains('='));
        let f = first_index_of(raw@, '=');
        assert(f == k as int) by {
            if f < k {
            } else if f > k {
            }
        }
    }
    let mut m: usize = k + 1;
    while m < n && raw[m] != '='
        invariant
            n == raw@.len(),
            k < m <= n,
            forall|j: int| k < j < m ==> raw@[j] != '=',
        decreases n - m,
    {
        m = m + 1;
    }
    if m < n {
        assert(raw@.skip(k + 1)[m - k - 1] == '=');
        assert(raw@.skip(k + 1).contains('='));
        return None;
    }
    assert(!raw@.skip(k + 1).contains('=')) by {
        let rest = raw@.skip(k + 1);
        if rest.contains('=') {
            let j = choose|j: int| 0 <= j < rest.len() && #[trigger] rest[j] == '=';
            assert(raw@[k + 1 + j] == '=');
        }
    }
    let mut name: Vec<char> = Vec::new();
    let mut j: usize = 0;
    while j < k
        invariant
            n == raw@.len(),
            j <= k < n,
            name@ == raw@.take(j as int),
        decreases k - j,
    {
        name.push(raw[j]);
        j = j + 1;
        assert(name@ =~= raw@.take(j as int));
    }
    let value = trimmed_range(raw, k + 1, n);
    assert(raw@.subrange(k + 1, n as int) =~= raw@.skip(k + 1));
    if value.len() == 0 {
        if name.len() == 0 {
            None
        } else {
            Some((name, Level::Trace))
        }
    } else {
        match Level::parse_chars(&value) {
            Some(l) => Some((name, l)),
            None => None,
        }
    }
}

/// Sets the directive for `target` to `level`, replacing an existing one.
fn upsert_directive(directives: &mut Vec<Directive>, target: &Vec<char>, level: Level)
    requires
        targets_distinct(view_of(old(directives)@)),
    ensures
        targets_distinct(view_of(final(directives)@)),
        view_of(final(directives)@) == upsert(view_of(old(directives)@), target@, level),
{
    let t = string_of(target);
    let ghost ds = view_of(directives@);
    let mut i: usize = 0;
    while i < directives.len()
        invariant
            directives@ == old(directives)@,
            ds == view_of(directives@),
            targets_distinct(ds),
            t@ == target@,
            i <= directives@.len(),
            forall|k: int| 0 <= k < i ==> ds[k].0 != t@,
        decreases directives@.len() - i,
    {
        assert(ds[i as int] == (directives@[i as int].target@, directives@[i as int].level));
        if directives[i].target == t {
            proof {
                assert(ds[i as int].0 == target@);
                let c = choose|k: int| 0 <= k < ds.len() && ds[k].0 == target@;
                assert(ds[c].0 == ds[i as int].0);
            }
            let ghost before = directives@;
            directives.set(i, Directive { target: t, level });
            proof {
                assert forall|k: int| 0 <= k < ds.len() implies view_of(directives@)[k] == ds.update(
                    i as int,
                    (target@, level),
                )[k] by {
                    if k != i {
                        assert(directives@[k] == before[k]);
                    }
                }
                assert(view_of(directives@) =~= ds.update(i as int, (target@, level)));
                assert forall|a: int, b: int|
                    0 <= a < ds.len() && 0 <= b < ds.len() && a != b implies view_of(directives@)[a].0
                    != view_of(directives@)[b].0 by {
                    if a != i && b != i {
                        assert(ds[a].0 != ds[b].0);
                    } else if a == i {
                        assert(ds[b].0 != ds[a].0);
                    } else {
                        assert(ds[a].0 != ds[b].0);
                    }
                }
            }
            return;
        }
        i = i + 1;
    }
    directives.push(Directive { target: t, level });
    assert(view_of(directives@) =~= ds.push((target@, level)));
}

} // verus!
