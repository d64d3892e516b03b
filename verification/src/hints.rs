//! Segmentation hints for text dictionaries: what a segmentation rules file
//! says about labels, prefixes and compounds, and the entries a dictionary
//! gains from it.
use vstd::prelude::*;
use crate::dictionary::{Dictionary, DictionaryEntry, EntryView, entry_view, entries_view, lemma_base, lemma_base_of, with_orth};
use crate::id_resolver::{IdResolver, LabelSet, split_char, split_on_char, lemma_split_char_nonempty};
use crate::ordered::{SortedStrings, str_views, strictly_sorted, lemma_sorted_unique};
use crate::text::{
    chars_of, trim_range, trimmed, string_from_char_range, str_eq, owned, push_str, push_char,
    joined, join_strings, lowercased, to_lowercase, upper_of, upper_chars,
};
use crate::tsv::{lines_of, starts_with, text_lines};

verus! {

/// The characters of `s` before the first `c` (all of `s` when there is
/// none), as the first piece of `str::split`.
pub open spec fn upto_char(s: Seq<char>, c: char) -> Seq<char>
    decreases s.len(),
{
    if s.len() == 0 || s[0] == c {
        Seq::empty()
    } else {
        seq![s[0]] + upto_char(s.drop_first(), c)
    }
}

/// `p` occurs in `s`.
pub open spec fn has_infix(s: Seq<char>, p: Seq<char>) -> bool {
    exists|i: int| 0 <= i && i + p.len() <= s.len() && #[trigger] s.subrange(i, i + p.len()) == p
}

/// The pieces, each trimmed, the empty ones left out.
pub open spec fn trimmed_parts(pieces: Seq<Seq<char>>) -> Seq<Seq<char>>
    decreases pieces.len(),
{
    if pieces.len() == 0 {
        Seq::empty()
    } else {
        let rest = trimmed_parts(pieces.drop_last());
        if trimmed(pieces.last()).len() > 0 { rest.push(trimmed(pieces.last())) } else { rest }
    }
}

/// The segment types that rules combine rather than label.
pub open spec fn is_atomic_type(s: Seq<char>) -> bool {
    s == "prefs"@ || s == "nie"@ || s == "dywiz"@ || s == "subst"@
}

/// What a segmentation rules file says, as far as it is read so far.
pub struct HintsScan {
    pub in_combinations: bool,
    pub standalone: Set<Seq<char>>,
    pub prefix: Set<Seq<char>>,
    pub shift_adja_adj: bool,
    pub prefs_subst: bool,
    pub prefs_dywiz_subst: bool,
    pub nie_dywiz_subst: bool,
    pub subst_dywiz_subst: bool,
}

pub open spec fn hints_scan_start() -> HintsScan {
    HintsScan {
        in_combinations: false,
        standalone: Set::empty(),
        prefix: Set::empty(),
        shift_adja_adj: false,
        prefs_subst: false,
        prefs_dywiz_subst: false,
        nie_dywiz_subst: false,
        subst_dywiz_subst: false,
    }
}

/// The scan after one more line of the rules file: the text before any `#`,
/// trimmed, is read; a line naming `adja>` and `adj` allows the shift of
/// `adja` onto `adj`; `[combinations]` opens the combinations section, any
/// other `[...]` closes it; in that section, a rule without `(` is split at
/// `>` into its segment types.
pub open spec fn hints_scan_line(st: HintsScan, raw: Seq<char>) -> HintsScan {
    let line = trimmed(upto_char(raw, '#'));
    if line.len() == 0 {
        st
    } else {
        let st1 = if has_infix(line, "adja>"@) && has_infix(line, "adj"@) {
            HintsScan { shift_adja_adj: true, ..st }
        } else {
            st
        };
        if line[0] == '[' && line.last() == ']' {
            HintsScan { in_combinations: line == "[combinations]"@, ..st1 }
        } else if !st1.in_combinations || starts_with(line, "#define"@) || has_infix(line, "("@) {
            st1
        } else {
            let parts = trimmed_parts(split_char(line, '>'));
            if parts == seq!["prefs"@, "subst"@] {
                HintsScan { prefs_subst: true, ..st1 }
            } else if parts == seq!["prefs"@, "dywiz"@, "subst"@] {
                HintsScan { prefs_dywiz_subst: true, ..st1 }
            } else if parts == seq!["nie"@, "dywiz"@, "subst"@] {
                HintsScan { nie_dywiz_subst: true, ..st1 }
            } else if parts == seq!["subst"@, "dywiz"@, "subst"@] {
                HintsScan { subst_dywiz_subst: true, ..st1 }
            } else if parts.len() == 1 && !is_atomic_type(parts[0]) {
                HintsScan { standalone: st1.standalone.insert(parts[0]), ..st1 }
            } else if parts.len() >= 1 && !is_atomic_type(parts[0]) {
                HintsScan { prefix: st1.prefix.insert(parts[0]), ..st1 }
            } else {
                st1
            }
        }
    }
}

/// The scan of the given lines.
pub open spec fn hints_scan(lines: Seq<Seq<char>>) -> HintsScan
    decreases lines.len(),
{
    if lines.len() == 0 {
        hints_scan_start()
    } else {
        hints_scan_line(hints_scan(lines.drop_last()), lines.last())
    }
}

/// How many characters come before the first `c`.
fn upto_char_end(s: &[char], c: char) -> (n: usize)
    ensures
        n <= s@.len(),
        s@.take(n as int) == upto_char(s@, c),
{
    let mut i: usize = 0;
    while i < s.len() && s[i] != c
        invariant
            i <= s@.len(),
            forall|k: int| 0 <= k < i ==> s@[k] != c,
        decreases s@.len() - i,
    {
        i = i + 1;
    }
    proof {
        lemma_upto_char(s@, c, i as int);
    }
    i
}

proof fn lemma_upto_char(s: Seq<char>, c: char, n: int)
    requires
        0 <= n <= s.len(),
        forall|k: int| 0 <= k < n ==> s[k] != c,
        n == s.len() || s[n] == c,
    ensures
        s.take(n) == upto_char(s, c),
    decreases s.len(),
{
    if n == 0 {
        assert(s.take(0) =~= Seq::<char>::empty());
    } else {
        lemma_upto_char(s.drop_first(), c, n - 1);
        assert(s.take(n) =~= seq![s[0]] + s.drop_first().take(n - 1));
    }
}

/// Whether `p` occurs in `s`.
pub fn contains_infix(s: &[char], p: &str) -> (r: bool)
    ensures
        r == has_infix(s@, p@),
{
    let pc = chars_of(p);
    let n = s.len();
    let m = pc.len();
    if m > n {
        proof {
            assert forall|i: int| 0 <= i && i + p@.len() <= s@.len() implies #[trigger] s@.subrange(i, i + p@.len()) != p@ by {}
        }
        return false;
    }
    let mut i: usize = 0;
    while i <= n - m
        invariant
            pc@ == p@,
            n == s@.len(),
            m == pc@.len(),
            m <= n,
            i <= n - m + 1,
            forall|k: int| 0 <= k < i ==> #[trigger] s@.subrange(k, k + m) != p@,
        decreases n - m + 1 - i,
    {
        let mut j: usize = 0;
        while j < m && s[i + j] == pc[j]
            invariant
                pc@ == p@,
                n == s@.len(),
                m == pc@.len(),
                i + m <= n,
                j <= m,
                forall|k: int| 0 <= k < j ==> s@[i + k] == pc@[k],
            decreases m - j,
        {
            j = j + 1;
        }
        if j == m {
            assert(s@.subrange(i as int, i + m) =~= p@);
            return true;
        }
        assert(s@.subrange(i as int, i + m)[j as int] != p@[j as int]);
        i = i + 1;
    }
    false
}

/// The pieces, each trimmed, the empty ones left out.
fn nonempty_trimmed(pieces: &Vec<String>) -> (r: Vec<String>)
    ensures
        str_views(r@) == trimmed_parts(str_views(pieces@)),
{
    let ghost pv = str_views(pieces@);
    let mut r: Vec<String> = Vec::new();
    let mut i: usize = 0;
    while i < pieces.len()
        invariant
            i <= pieces@.len(),
            pv == str_views(pieces@),
            str_views(r@) == trimmed_parts(pv.take(i as int)),
        decreases pieces@.len() - i,
    {
        let pc = chars_of(pieces[i].as_str());
        let (a, b) = trim_range(pc.as_slice());
        proof {
            assert(pv.take(i + 1).drop_last() =~= pv.take(i as int));
            assert(pv.take(i + 1).last() == pieces@[i as int]@);
        }
        if a < b {
            let t = string_from_char_range(pc.as_slice(), a, b);
            r.push(t);
            assert(str_views(r@) =~= trimmed_parts(pv.take(i as int)).push(trimmed(pieces@[i as int]@)));
        }
        i = i + 1;
    }
    assert(pv.take(pieces@.len() as int) =~= pv);
    r
}

fn is_atomic_segment_type(segment_type: &str) -> (r: bool)
    ensures
        r == is_atomic_type(segment_type@),
{
    str_eq(segment_type, "prefs") || str_eq(segment_type, "nie") || str_eq(segment_type, "dywiz")
        || str_eq(segment_type, "subst")
}

/// What a segmentation rules file tells a text dictionary.
#[derive(Debug, Clone)]
pub struct SegmentationHints {
    /// Labels that segment types on their own.
    pub standalone_labels: SortedStrings,
    /// Labels that begin a combination.
    pub prefix_labels: SortedStrings,
    pub shift_adja_adj: bool,
    pub prefs_subst: bool,
    pub prefs_dywiz_subst: bool,
    pub nie_dywiz_subst: bool,
    pub subst_dywiz_subst: bool,
}

impl SegmentationHints {
    /// The hints agree with a scan of a rules file.
    pub open spec fn from_scan(&self, sc: HintsScan) -> bool {
        &&& self.standalone_labels.wf()
        &&& self.prefix_labels.wf()
        &&& forall|t: Seq<char>| self.standalone_labels.view().contains(t) <==> sc.standalone.contains(t)
        &&& forall|t: Seq<char>| self.prefix_labels.view().contains(t) <==> sc.prefix.contains(t)
        &&& self.shift_adja_adj == sc.shift_adja_adj
        &&& self.prefs_subst == sc.prefs_subst
        &&& self.prefs_dywiz_subst == sc.prefs_dywiz_subst
        &&& self.nie_dywiz_subst == sc.nie_dywiz_subst
        &&& self.subst_dywiz_subst == sc.subst_dywiz_subst
    }

    /// The hints of a segmentation rules file.
    pub fn parse(content: &str) -> (h: Self)
        ensures
            h.from_scan(hints_scan(lines_of(content@))),
    {
        let lines = text_lines(content);
        let ghost lv = lines@.map_values(|l: String| l@);
        let mut h = SegmentationHints {
            standalone_labels: SortedStrings::new(),
            prefix_labels: SortedStrings::new(),
            shift_adja_adj: false,
            prefs_subst: false,
            prefs_dywiz_subst: false,
            nie_dywiz_subst: false,
            subst_dywiz_subst: false,
        };
        let mut in_combinations = false;
        let mut i: usize = 0;
        assert(lv.take(0) =~= Seq::<Seq<char>>::empty());
        while i < lines.len()
            invariant
                i <= lines@.len(),
                lv == lines@.map_values(|l: String| l@),
                lv == lines_of(content@),
                h.from_scan(hints_scan(lv.take(i as int))),
                in_combinations == hints_scan(lv.take(i as int)).in_combinations,
            decreases lines@.len() - i,
        {
            let ghost st = hints_scan(lv.take(i as int));
            proof {
                reveal_strlit("adja>");
                reveal_strlit("adj");
                reveal_strlit("[combinations]");
                reveal_strlit("#define");
                reveal_strlit("(");
                reveal_strlit("prefs");
                reveal_strlit("subst");
                reveal_strlit("dywiz");
                reveal_strlit("nie");
                assert(lv.take(i + 1).drop_last() =~= lv.take(i as int));
                assert(lv.take(i + 1).last() == lv[i as int]);
                assert(lv[i as int] == lines@[i as int]@);
            }
            let raw = chars_of(lines[i].as_str());
            let cut = upto_char_end(raw.as_slice(), '#');
            let head = string_from_char_range(raw.as_slice(), 0, cut);
            let hc = chars_of(head.as_str());
            assert(hc@ =~= raw@.take(cut as int));
            let (a, b) = trim_range(hc.as_slice());
            let line = string_from_char_range(hc.as_slice(), a, b);
            let lc = chars_of(line.as_str());
            assert(lc@ == trimmed(upto_char(lv[i as int], '#')));
            if a < b {
                if contains_infix(lc.as_slice(), "adja>") && contains_infix(lc.as_slice(), "adj") {
                    h.shift_adja_adj = true;
                }
                let last = lc.len() - 1;
                if lc[0] == '[' && lc[last] == ']' {
                    in_combinations = str_eq(line.as_str(), "[combinations]");
                } else if !in_combinations || crate::engine::str_starts_with(line.as_str(), "#define")
                    || contains_infix(lc.as_slice(), "(") {
                } else {
                    let pieces = split_on_char(lc.as_slice(), '>');
                    let parts = nonempty_trimmed(&pieces);
                    let ghost pv = str_views(parts@);
                    assert(pv == trimmed_parts(split_char(lc@, '>')));
                    let n = parts.len();
                    if n == 2 && str_eq(parts[0].as_str(), "prefs") && str_eq(parts[1].as_str(), "subst") {
                        assert(pv =~= seq!["prefs"@, "subst"@]);
                        h.prefs_subst = true;
                    } else if n == 3 && str_eq(parts[0].as_str(), "prefs") && str_eq(parts[1].as_str(), "dywiz")
                        && str_eq(parts[2].as_str(), "subst") {
                        assert(pv =~= seq!["prefs"@, "dywiz"@, "subst"@]);
                        h.prefs_dywiz_subst = true;
                    } else if n == 3 && str_eq(parts[0].as_str(), "nie") && str_eq(parts[1].as_str(), "dywiz")
                        && str_eq(parts[2].as_str(), "subst") {
                        assert(pv =~= seq!["nie"@, "dywiz"@, "subst"@]);
                        h.nie_dywiz_subst = true;
                    } else if n == 3 && str_eq(parts[0].as_str(), "subst") && str_eq(parts[1].as_str(), "dywiz")
                        && str_eq(parts[2].as_str(), "subst") {
                        assert(pv =~= seq!["subst"@, "dywiz"@, "subst"@]);
                        h.subst_dywiz_subst = true;
                    } else {
                        proof {
                            assert(pv != seq!["prefs"@, "subst"@]) by {
                                if pv == seq!["prefs"@, "subst"@] {
                                    assert(pv[0] == parts@[0]@ && pv[1] == parts@[1]@);
                                }
                            }
                            assert(pv != seq!["prefs"@, "dywiz"@, "subst"@]) by {
                                if pv == seq!["prefs"@, "dywiz"@, "subst"@] {
                                    assert(pv[0] == parts@[0]@ && pv[1] == parts@[1]@ && pv[2] == parts@[2]@);
                                }
                            }
                            assert(pv != seq!["nie"@, "dywiz"@, "subst"@]) by {
                                if pv == seq!["nie"@, "dywiz"@, "subst"@] {
                                    assert(pv[0] == parts@[0]@ && pv[1] == parts@[1]@ && pv[2] == parts@[2]@);
                                }
                            }
                            assert(pv != seq!["subst"@, "dywiz"@, "subst"@]) by {
                                if pv == seq!["subst"@, "dywiz"@, "subst"@] {
                                    assert(pv[0] == parts@[0]@ && pv[1] == parts@[1]@ && pv[2] == parts@[2]@);
                                }
                            }
                        }
                        if n >= 1 && !is_atomic_segment_type(parts[0].as_str()) {
                            assert(pv[0] == parts@[0]@);
                            if n == 1 {
                                h.standalone_labels.insert(parts[0].as_str());
                            } else {
                                h.prefix_labels.insert(parts[0].as_str());
                            }
                        } else if n >= 1 {
                            assert(pv[0] == parts@[0]@);
                        }
                    }
                }
            }
            proof {
                assert(hints_scan(lv.take(i + 1)) == hints_scan_line(st, lv[i as int]));
            }
            i = i + 1;
        }
        proof {
            assert(lv.take(lv.len() as int) =~= lv);
        }
        h
    }

    /// Whether the hints ask for any change to the dictionary.
    pub fn has_rules(&self) -> (r: bool)
        ensures
            r == (self.prefix_labels.view().len() > 0 || self.shift_adja_adj || self.prefs_subst
                || self.prefs_dywiz_subst || self.nie_dywiz_subst || self.subst_dywiz_subst),
    {
        !self.prefix_labels.is_empty() || self.shift_adja_adj || self.prefs_subst
            || self.prefs_dywiz_subst || self.nie_dywiz_subst || self.subst_dywiz_subst
    }
}

/// The tag of an id, if the tagset has one.
pub open spec fn tag_of(r: IdResolver, id: i32) -> Option<Seq<char>> {
    if r.has_tag(id as int) { Some(r.spec_tag(id as int)) } else { None }
}

/// The labels of an id, if the tagset has them.
pub open spec fn labels_of(r: IdResolver, id: i32) -> Option<Seq<Seq<char>>> {
    if r.has_labels(id as int) { Some(r.label_sets()[id as int]) } else { None }
}

/// The entry's tag is `t`.
pub open spec fn tagged(e: EntryView, r: IdResolver, t: Seq<char>) -> bool {
    tag_of(r, e.tag_id) == Some(t)
}

/// The entry's tag begins with `p`.
pub open spec fn tag_starts(e: EntryView, r: IdResolver, p: Seq<char>) -> bool {
    tag_of(r, e.tag_id) matches Some(t) && starts_with(t, p)
}

/// The entry's tag is one that lookups of other letter case may share:
/// anything but `prefs`, `nie` and `interp`.
pub open spec fn alias_candidate(e: EntryView, r: IdResolver) -> bool {
    !tagged(e, r, "prefs"@) && !tagged(e, r, "nie"@) && !tagged(e, r, "interp"@)
}

/// The elements of `s` that are in `set`, in the order of `s`.
pub open spec fn kept_in(s: Seq<Seq<char>>, set: Seq<Seq<char>>) -> Seq<Seq<char>>
    decreases s.len(),
{
    if s.len() == 0 {
        Seq::empty()
    } else {
        let rest = kept_in(s.drop_last(), set);
        if set.contains(s.last()) { rest.push(s.last()) } else { rest }
    }
}

/// `s` holds, each once and in code point order, the strings of `set`
/// that are not in `out` nor equal to `skip`.
pub open spec fn sorts_rest(s: Seq<Seq<char>>, set: Seq<Seq<char>>, out: Seq<Seq<char>>, skip: Option<Seq<char>>) -> bool {
    &&& strictly_sorted(s)
    &&& forall|t: Seq<char>| s.contains(t) <==> (set.contains(t) && !out.contains(t) && skip != Some(t))
}

/// The strings of `set` not in `out` nor equal to `skip`, each once, in
/// code point order.
pub open spec fn sorted_rest(set: Seq<Seq<char>>, out: Seq<Seq<char>>, skip: Option<Seq<char>>) -> Seq<Seq<char>> {
    choose|s: Seq<Seq<char>>| sorts_rest(s, set, out, skip)
}

/// Labels joined with `|`, or `_` when there are none.
pub open spec fn joined_labels(labels: Seq<Seq<char>>) -> Seq<char> {
    if labels.len() == 0 { seq!['_'] } else { joined(labels, seq!['|']) }
}

/// The labels of a standalone entry: those the hints name as standalone
/// first, in order, then the others sorted.
pub open spec fn standalone_labels_spec(e: EntryView, r: IdResolver, standalone: Seq<Seq<char>>) -> Seq<char> {
    match labels_of(r, e.labels_id) {
        None => seq!['_'],
        Some(labels) => joined_labels(kept_in(standalone, labels) + sorted_rest(labels, standalone, None)),
    }
}

/// How many different labels there are.
pub open spec fn distinct_count(labels: Seq<Seq<char>>) -> nat {
    sorted_rest(labels, Seq::empty(), None).len()
}

/// The labels of an entry combined with a prefix: for the prefix `euro`
/// among several labels, the standalone ones first, then the others but
/// the prefix sorted, then the prefix; otherwise the prefix first (when the
/// entry has it), then the others sorted.
pub open spec fn prefixed_labels_spec(e: EntryView, prefix: Seq<char>, r: IdResolver, standalone: Seq<Seq<char>>) -> Seq<char> {
    match labels_of(r, e.labels_id) {
        None => seq!['_'],
        Some(labels) => if prefix == "euro"@ && distinct_count(labels) > 1 {
            joined_labels(kept_in(standalone, labels) + sorted_rest(labels, standalone, Some(prefix)).push(prefix))
        } else {
            joined_labels((if labels.contains(prefix) { seq![prefix] } else { Seq::empty() })
                + sorted_rest(labels, Seq::empty(), Some(prefix)))
        },
    }
}

/// Whether an entry stays on its own: not a prefix; and, when the hints
/// name prefix labels, it has labels, and when they also name standalone
/// labels, it has one of those and none of the prefix ones.
pub open spec fn keeps_standalone(e: EntryView, r: IdResolver, standalone: Seq<Seq<char>>, prefixes: Seq<Seq<char>>) -> bool {
    if tagged(e, r, "prefs"@) {
        false
    } else if prefixes.len() == 0 {
        true
    } else {
        match labels_of(r, e.labels_id) {
            None => false,
            Some(labels) => standalone.len() == 0 || (
                (exists|i: int| 0 <= i < labels.len() && standalone.contains(#[trigger] labels[i]))
                && !(exists|i: int| 0 <= i < labels.len() && prefixes.contains(#[trigger] labels[i]))),
        }
    }
}

/// Whether an entry combines with a prefix: it is not a prefix itself and
/// its labels name the prefix.
pub open spec fn combines_with(e: EntryView, prefix: Seq<char>, r: IdResolver) -> bool {
    &&& !tagged(e, r, "prefs"@)
    &&& labels_of(r, e.labels_id) matches Some(labels) && labels.contains(prefix)
}

fn tag_is(entry: &DictionaryEntry, resolver: &IdResolver, t: &str) -> (b: bool)
    ensures
        b == tagged(entry_view(*entry), *resolver, t@),
{
    match resolver.tag(entry.tag_id) {
        Some(tag) => str_eq(tag, t),
        None => false,
    }
}

fn tag_starts_with(entry: &DictionaryEntry, resolver: &IdResolver, p: &str) -> (b: bool)
    ensures
        b == tag_starts(entry_view(*entry), *resolver, p@),
{
    match resolver.tag(entry.tag_id) {
        Some(tag) => crate::engine::str_starts_with(tag, p),
        None => false,
    }
}

fn is_case_alias_candidate(entry: &DictionaryEntry, resolver: &IdResolver) -> (b: bool)
    ensures
        b == alias_candidate(entry_view(*entry), *resolver),
{
    !tag_is(entry, resolver, "prefs") && !tag_is(entry, resolver, "nie") && !tag_is(entry, resolver, "interp")
}

fn is_subst_entry(entry: &DictionaryEntry, resolver: &IdResolver) -> (b: bool)
    ensures
        b == tag_starts(entry_view(*entry), *resolver, "subst:"@),
{
    tag_starts_with(entry, resolver, "subst:")
}

/// Labels joined with `|`, or `_` when there are none.
fn join_labels(labels: &Vec<String>) -> (r: String)
    ensures
        r@ == joined_labels(str_views(labels@)),
{
    proof {
        reveal_strlit("_");
        reveal_strlit("|");
    }
    assert("_"@ =~= seq!['_']);
    assert("|"@ =~= seq!['|']);
    if labels.len() == 0 {
        owned("_")
    } else {
        join_strings(labels.as_slice(), "|")
    }
}

/// The elements of `s` that are in `set`, in the order of `s`.
fn kept_in_labels(s: &[String], set: &LabelSet) -> (r: Vec<String>)
    ensures
        str_views(r@) == kept_in(str_views(s@), set.view()),
{
    let ghost sv = str_views(s@);
    let mut r: Vec<String> = Vec::new();
    let mut i: usize = 0;
    while i < s.len()
        invariant
            i <= s@.len(),
            sv == str_views(s@),
            str_views(r@) == kept_in(sv.take(i as int), set.view()),
        decreases s@.len() - i,
    {
        proof {
            assert(sv.take(i + 1).drop_last() =~= sv.take(i as int));
            assert(sv.take(i + 1).last() == s@[i as int]@);
        }
        if set.contains(s[i].as_str()) {
            r.push(owned(s[i].as_str()));
            assert(str_views(r@) =~= kept_in(sv.take(i as int), set.view()).push(s@[i as int]@));
        }
        i = i + 1;
    }
    assert(sv.take(s@.len() as int) =~= sv);
    r
}

/// The labels of `set` not in `out` nor equal to `skip`, each once, in code
/// point order.
fn sorted_rest_labels(set: &LabelSet, out: &SortedStrings, skip: Option<&str>) -> (r: Vec<String>)
    requires
        out.wf(),
    ensures
        str_views(r@) == sorted_rest(set.view(), out.view(), match skip { Some(k) => Some(k@), None => None }),
{
    let ghost skip_view: Option<Seq<char>> = match skip { Some(k) => Some(k@), None => None };
    let items = set.as_slice();
    let ghost iv = items@.map_values(|x: String| x@);
    let mut sorted = SortedStrings::new();
    let mut i: usize = 0;
    while i < items.len()
        invariant
            i <= items@.len(),
            iv == items@.map_values(|x: String| x@),
            iv == set.view(),
            out.wf(),
            sorted.wf(),
            skip_view == match skip { Some(k) => Some(k@), None => None },
            forall|t: Seq<char>| sorted.view().contains(t) <==>
                ((exists|j: int| 0 <= j < i && #[trigger] iv[j] == t) && !out.view().contains(t) && skip_view != Some(t)),
        decreases items@.len() - i,
    {
        let label = items[i].as_str();
        assert(iv[i as int] == label@);
        let skipped = match skip {
            Some(k) => str_eq(label, k),
            None => false,
        };
        let ghost before = sorted.view();
        if !out.contains(label) && !skipped {
            sorted.insert(label);
        }
        proof {
            assert forall|t: Seq<char>| sorted.view().contains(t) <==>
                ((exists|j: int| 0 <= j < i + 1 && #[trigger] iv[j] == t) && !out.view().contains(t) && skip_view != Some(t)) by {
                if (exists|j: int| 0 <= j < i + 1 && #[trigger] iv[j] == t) && !out.view().contains(t) && skip_view != Some(t) {
                    let j = choose|j: int| 0 <= j < i + 1 && #[trigger] iv[j] == t;
                    if j < i {
                        assert(before.contains(t));
                    }
                }
                if sorted.view().contains(t) && t != label@ {
                    assert(before.contains(t));
                }
            }
        }
        i = i + 1;
    }
    let ghost result = sorted.view();
    proof {
        assert(sorts_rest(result, set.view(), out.view(), skip_view)) by {
            assert forall|t: Seq<char>| result.contains(t) <==> (set.view().contains(t) && !out.view().contains(t) && skip_view != Some(t)) by {
                if set.view().contains(t) {
                    let j = choose|j: int| 0 <= j < iv.len() && iv[j] == t;
                    assert(iv[j] == t);
                }
                if result.contains(t) {
                    let j = choose|j: int| 0 <= j < items@.len() && #[trigger] iv[j] == t;
                    assert(set.view()[j] == t);
                }
            }
            assert(strictly_sorted(result));
        }
        let c = sorted_rest(set.view(), out.view(), skip_view);
        assert(sorts_rest(c, set.view(), out.view(), skip_view));
        lemma_sorted_unique(c, result);
    }
    sorted.into_vec()
}

/// The labels of an entry kept on its own, ordered for the hints.
fn ordered_standalone_labels(entry: &DictionaryEntry, resolver: &IdResolver, hints: &SegmentationHints) -> (r: String)
    requires
        resolver.wf(),
        hints.standalone_labels.wf(),
    ensures
        r@ == standalone_labels_spec(entry_view(*entry), *resolver, hints.standalone_labels.view()),
{
    proof { reveal_strlit("_"); }
    assert("_"@ =~= seq!['_']);
    let labels = match resolver.labels(entry.labels_id) {
        Some(labels) => labels,
        None => {
            return owned("_");
        },
    };
    let mut ordered = kept_in_labels(hints.standalone_labels.as_slice(), labels);
    let mut rest = sorted_rest_labels(labels, &hints.standalone_labels, None);
    let ghost a = str_views(ordered@);
    let ghost b = str_views(rest@);
    ordered.append(&mut rest);
    assert(str_views(ordered@) =~= a + b);
    join_labels(&ordered)
}

/// The labels of an entry combined with a prefix, ordered for the hints.
fn ordered_prefixed_labels(entry: &DictionaryEntry, prefix: &DictionaryEntry, resolver: &IdResolver, hints: &SegmentationHints) -> (r: String)
    requires
        resolver.wf(),
        hints.standalone_labels.wf(),
    ensures
        r@ == prefixed_labels_spec(entry_view(*entry), prefix.orth@, *resolver, hints.standalone_labels.view()),
{
    proof {
        reveal_strlit("_");
        reveal_strlit("euro");
    }
    assert("_"@ =~= seq!['_']);
    let labels = match resolver.labels(entry.labels_id) {
        Some(labels) => labels,
        None => {
            return owned("_");
        },
    };
    let prefix_label = prefix.orth.as_str();
    let nothing = SortedStrings::new();
    let distinct = sorted_rest_labels(labels, &nothing, None);
    if str_eq(prefix_label, "euro") && distinct.len() > 1 {
        let mut ordered = kept_in_labels(hints.standalone_labels.as_slice(), labels);
        let mut middle = sorted_rest_labels(labels, &hints.standalone_labels, Some(prefix_label));
        let ghost a = str_views(ordered@);
        let ghost b = str_views(middle@);
        ordered.append(&mut middle);
        ordered.push(owned(prefix_label));
        assert(str_views(ordered@) =~= (a + b).push(prefix_label@));
        return join_labels(&ordered);
    }
    let mut ordered: Vec<String> = Vec::new();
    if labels.contains(prefix_label) {
        ordered.push(owned(prefix_label));
    }
    let ghost a = str_views(ordered@);
    assert(a =~= (if labels.view().contains(prefix_label@) { seq![prefix_label@] } else { Seq::<Seq<char>>::empty() }));
    let mut rest = sorted_rest_labels(labels, &nothing, Some(prefix_label));
    let ghost b = str_views(rest@);
    ordered.append(&mut rest);
    assert(str_views(ordered@) =~= a + b);
    join_labels(&ordered)
}

/// Whether an entry stays on its own under the hints.
fn should_keep_standalone(entry: &DictionaryEntry, resolver: &IdResolver, hints: &SegmentationHints) -> (b: bool)
    requires
        resolver.wf(),
        hints.standalone_labels.wf(),
        hints.prefix_labels.wf(),
    ensures
        b == keeps_standalone(entry_view(*entry), *resolver, hints.standalone_labels.view(), hints.prefix_labels.view()),
{
    if tag_is(entry, resolver, "prefs") {
        return false;
    }
    if hints.prefix_labels.is_empty() {
        return true;
    }
    let labels = match resolver.labels(entry.labels_id) {
        Some(labels) => labels,
        None => {
            return false;
        },
    };
    if hints.standalone_labels.is_empty() {
        return true;
    }
    let items = labels.as_slice();
    let ghost iv = items@.map_values(|x: String| x@);
    let mut any_standalone = false;
    let mut any_prefix = false;
    let mut i: usize = 0;
    while i < items.len()
        invariant
            i <= items@.len(),
            iv == items@.map_values(|x: String| x@),
            iv == labels.view(),
            hints.standalone_labels.wf(),
            hints.prefix_labels.wf(),
            any_standalone == exists|j: int| 0 <= j < i && hints.standalone_labels.view().contains(#[trigger] iv[j]),
            any_prefix == exists|j: int| 0 <= j < i && hints.prefix_labels.view().contains(#[trigger] iv[j]),
        decreases items@.len() - i,
    {
        assert(iv[i as int] == items@[i as int]@);
        if hints.standalone_labels.contains(items[i].as_str()) {
            any_standalone = true;
        }
        if hints.prefix_labels.contains(items[i].as_str()) {
            any_prefix = true;
        }
        i = i + 1;
    }
    proof {
        let lv = labels_of(*resolver, entry.labels_id).unwrap();
        assert(lv == iv);
        assert((exists|j: int| 0 <= j < lv.len() && hints.standalone_labels.view().contains(#[trigger] lv[j])) == any_standalone);
        assert((exists|j: int| 0 <= j < lv.len() && hints.prefix_labels.view().contains(#[trigger] lv[j])) == any_prefix);
    }
    any_standalone && !any_prefix
}

/// Whether an entry combines with the prefix.
fn should_combine_with_prefix(entry: &DictionaryEntry, prefix: &DictionaryEntry, resolver: &IdResolver) -> (b: bool)
    requires
        resolver.wf(),
    ensures
        b == combines_with(entry_view(*entry), prefix.orth@, *resolver),
{
    if tag_is(entry, resolver, "prefs") {
        return false;
    }
    match resolver.labels(entry.labels_id) {
        Some(labels) => labels.contains(prefix.orth.as_str()),
        None => false,
    }
}

/// A form and lemma to put before or after another entry's.
pub struct PieceView {
    pub orth: Seq<char>,
    pub lemma: Seq<char>,
}

/// A spelling of an entry's form, with the lemma and entry it stands for.
pub struct VariantView {
    pub orth: Seq<char>,
    pub lemma: Seq<char>,
    pub entry: EntryView,
}

/// A form and lemma to put before or after another entry's.
#[derive(Debug, Clone)]
pub struct PieceVariant {
    pub orth: String,
    pub lemma: String,
}

/// A spelling of an entry's form, with the lemma and entry it stands for.
#[derive(Debug, Clone)]
pub struct EntryVariant {
    pub orth: String,
    pub lemma: String,
    pub entry: DictionaryEntry,
}

pub open spec fn piece_view(p: PieceVariant) -> PieceView {
    PieceView { orth: p.orth@, lemma: p.lemma@ }
}

pub open spec fn variant_view(v: EntryVariant) -> VariantView {
    VariantView { orth: v.orth@, lemma: v.lemma@, entry: entry_view(v.entry) }
}

/// The entries whose tag lets other letter cases share their readings.
pub open spec fn candidates(entries: Seq<EntryView>, r: IdResolver) -> Seq<EntryView>
    decreases entries.len(),
{
    if entries.len() == 0 {
        Seq::empty()
    } else {
        let rest = candidates(entries.drop_last(), r);
        if alias_candidate(entries.last(), r) { rest.push(entries.last()) } else { rest }
    }
}

/// Some entry has the form `k`.
pub open spec fn has_orth(entries: Seq<EntryView>, k: Seq<char>) -> bool {
    exists|i: int| 0 <= i < entries.len() && #[trigger] entries[i].orth == k
}

/// The forms, other than `lower` itself, that lowercase to `lower`, each
/// once, in the order first met.
pub open spec fn mixed_orths(entries: Seq<EntryView>, lower: Seq<char>) -> Seq<Seq<char>>
    decreases entries.len(),
{
    if entries.len() == 0 {
        Seq::empty()
    } else {
        let rest = mixed_orths(entries.drop_last(), lower);
        let o = entries.last().orth;
        if lowercased(o) == lower && o != lower && !rest.contains(o) { rest.push(o) } else { rest }
    }
}

/// The spellings an entry is combined under: its own form; for a
/// lowercase form also each other spelling of it among the candidates;
/// for another form its lowercase one, when no candidate has that form.
pub open spec fn variants_spec(cands: Seq<EntryView>, e: EntryView) -> Seq<VariantView> {
    let own = VariantView { orth: e.orth, lemma: e.lemma, entry: e };
    let lower = lowercased(e.orth);
    if lower == e.orth {
        seq![own] + mixed_orths(cands, lower).map_values(|o: Seq<char>| VariantView { orth: o, lemma: e.lemma, entry: e })
    } else if !has_orth(cands, lower) {
        seq![own, VariantView { orth: lower, lemma: e.lemma, entry: e }]
    } else {
        seq![own]
    }
}

/// The word with its first character uppercased.
pub open spec fn titlecased(s: Seq<char>) -> Option<Seq<char>> {
    if s.len() == 0 { None } else { Some(upper_of(s[0]) + s.drop_first()) }
}

/// The spellings a prefix is combined under: its own form (with its lemma
/// when the form is lowercase, else the form as lemma), and for a lowercase
/// form also the titlecased one when that differs.
pub open spec fn prefix_variants_spec(p: EntryView) -> Seq<PieceView> {
    let lowercase = p.orth == lowercased(p.orth);
    let own = PieceView { orth: p.orth, lemma: if lowercase { p.lemma } else { p.orth } };
    if lowercase && titlecased(p.orth) is Some && titlecased(p.orth).unwrap() != p.orth {
        seq![own, PieceView { orth: titlecased(p.orth).unwrap(), lemma: p.lemma }]
    } else {
        seq![own]
    }
}

/// The word with its first character uppercased, if it has one.
fn titlecase_first(value: &str) -> (r: Option<String>)
    ensures
        r matches Some(t) ==> titlecased(value@) == Some(t@),
        r is None ==> titlecased(value@) is None,
{
    let chars = chars_of(value);
    if chars.len() == 0 {
        return None;
    }
    let upper = upper_chars(chars[0]);
    let mut t = crate::text::string_from_chars(upper.as_slice());
    let rest = string_from_char_range(chars.as_slice(), 1, chars.len());
    push_str(&mut t, rest.as_str());
    assert(chars@.subrange(1, chars@.len() as int) =~= value@.drop_first());
    Some(t)
}

/// The spellings a prefix is combined under.
fn prefix_variants(prefix: &DictionaryEntry) -> (r: Vec<PieceVariant>)
    ensures
        r@.map_values(|p: PieceVariant| piece_view(p)) == prefix_variants_spec(entry_view(*prefix)),
{
    let lower = to_lowercase(prefix.orth.as_str());
    let lowercase = str_eq(prefix.orth.as_str(), lower.as_str());
    let mut r: Vec<PieceVariant> = Vec::new();
    r.push(PieceVariant {
        orth: owned(prefix.orth.as_str()),
        lemma: if lowercase { owned(prefix.lemma.as_str()) } else { owned(prefix.orth.as_str()) },
    });
    if lowercase {
        if let Some(t) = titlecase_first(prefix.orth.as_str()) {
            if !str_eq(t.as_str(), prefix.orth.as_str()) {
                r.push(PieceVariant { orth: t, lemma: owned(prefix.lemma.as_str()) });
            }
        }
    }
    assert(r@.map_values(|p: PieceVariant| piece_view(p)) =~= prefix_variants_spec(entry_view(*prefix)));
    r
}

/// The entries that lookups of other letter cases may share, and the
/// lowercase form of each.
pub struct CaseIndex {
    pub entries: Vec<DictionaryEntry>,
    pub lowers: Vec<String>,
}

impl CaseIndex {
    pub open spec fn wf(&self) -> bool {
        &&& self.lowers@.len() == self.entries@.len()
        &&& forall|i: int| 0 <= i < self.entries@.len() ==> #[trigger] self.lowers@[i]@ == lowercased(self.entries@[i].orth@)
    }

    pub open spec fn view(&self) -> Seq<EntryView> {
        entries_view(self.entries@)
    }

    /// The index of the candidates among the entries.
    pub fn new(entries: &[DictionaryEntry], resolver: &IdResolver) -> (ix: Self)
        ensures
            ix.wf(),
            ix.view() == candidates(entries_view(entries@), *resolver),
    {
        let ghost ev = entries_view(entries@);
        let mut kept: Vec<DictionaryEntry> = Vec::new();
        let mut lowers: Vec<String> = Vec::new();
        let mut i: usize = 0;
        while i < entries.len()
            invariant
                i <= entries@.len(),
                ev == entries_view(entries@),
                lowers@.len() == kept@.len(),
                forall|k: int| 0 <= k < kept@.len() ==> #[trigger] lowers@[k]@ == lowercased(kept@[k].orth@),
                entries_view(kept@) == candidates(ev.take(i as int), *resolver),
            decreases entries@.len() - i,
        {
            proof {
                assert(ev.take(i + 1).drop_last() =~= ev.take(i as int));
                assert(ev.take(i + 1).last() == entry_view(entries@[i as int]));
            }
            if is_case_alias_candidate(&entries[i], resolver) {
                let e = entries[i].copy();
                let lower = to_lowercase(e.orth.as_str());
                let ghost before = entries_view(kept@);
                kept.push(e);
                lowers.push(lower);
                assert(entries_view(kept@) =~= before.push(entry_view(entries@[i as int])));
            }
            i = i + 1;
        }
        assert(ev.take(entries@.len() as int) =~= ev);
        CaseIndex { entries: kept, lowers }
    }

    /// Whether some candidate has the form `k`.
    fn has_orth(&self, k: &str) -> (r: bool)
        ensures
            r == has_orth(self.view(), k@),
    {
        let mut i: usize = 0;
        while i < self.entries.len()
            invariant
                i <= self.entries@.len(),
                forall|j: int| 0 <= j < i ==> #[trigger] self.view()[j].orth != k@,
            decreases self.entries@.len() - i,
        {
            if str_eq(self.entries[i].orth.as_str(), k) {
                assert(self.view()[i as int].orth == k@);
                return true;
            }
            i = i + 1;
        }
        false
    }

    /// The other spellings of the lowercase form `lower`.
    fn mixed_orths(&self, lower: &str) -> (r: Vec<String>)
        requires
            self.wf(),
        ensures
            str_views(r@) == mixed_orths(self.view(), lower@),
    {
        let ghost v = self.view();
        let mut found = SortedStrings::new();
        let mut r: Vec<String> = Vec::new();
        let mut i: usize = 0;
        while i < self.entries.len()
            invariant
                self.wf(),
                v == self.view(),
                i <= self.entries@.len(),
                found.wf(),
                str_views(r@) == mixed_orths(v.take(i as int), lower@),
                forall|t: Seq<char>| found.view().contains(t) <==> str_views(r@).contains(t),
            decreases self.entries@.len() - i,
        {
            proof {
                assert(v.take(i + 1).drop_last() =~= v.take(i as int));
                assert(v.take(i + 1).last() == v[i as int]);
                assert(self.lowers@[i as int]@ == lowercased(self.entries@[i as int].orth@));
            }
            let orth = self.entries[i].orth.as_str();
            if str_eq(self.lowers[i].as_str(), lower) && !str_eq(orth, lower) && !found.contains(orth) {
                let ghost before = str_views(r@);
                found.insert(orth);
                r.push(owned(orth));
                proof {
                    assert(str_views(r@) =~= before.push(orth@));
                    assert forall|t: Seq<char>| found.view().contains(t) <==> str_views(r@).contains(t) by {
                        if str_views(r@).contains(t) && t != orth@ {
                            let j = choose|j: int| 0 <= j < str_views(r@).len() && str_views(r@)[j] == t;
                            assert(before[j] == t);
                            assert(before.contains(t));
                        }
                        if before.contains(t) {
                            let j = choose|j: int| 0 <= j < before.len() && before[j] == t;
                            assert(str_views(r@)[j] == t);
                        }
                        if t == orth@ {
                            assert(str_views(r@)[before.len() as int] == t);
                        }
                    }
                }
            }
            i = i + 1;
        }
        assert(v.take(self.entries@.len() as int) =~= v);
        r
    }

    /// The spellings an entry is combined under.
    fn variants_for_entry(&self, entry: &DictionaryEntry) -> (r: Vec<EntryVariant>)
        requires
            self.wf(),
        ensures
            r@.map_values(|v: EntryVariant| variant_view(v)) == variants_spec(self.view(), entry_view(*entry)),
    {
        let ghost e = entry_view(*entry);
        let mut r: Vec<EntryVariant> = Vec::new();
        r.push(EntryVariant { orth: owned(entry.orth.as_str()), lemma: owned(entry.lemma.as_str()), entry: entry.copy() });
        let lower = to_lowercase(entry.orth.as_str());
        if str_eq(lower.as_str(), entry.orth.as_str()) {
            let mixed = self.mixed_orths(lower.as_str());
            let ghost mv = str_views(mixed@);
            let mut i: usize = 0;
            while i < mixed.len()
                invariant
                    i <= mixed@.len(),
                    mv == str_views(mixed@),
                    e == entry_view(*entry),
                    r@.map_values(|v: EntryVariant| variant_view(v)) == seq![VariantView { orth: e.orth, lemma: e.lemma, entry: e }]
                        + mv.take(i as int).map_values(|o: Seq<char>| VariantView { orth: o, lemma: e.lemma, entry: e }),
                decreases mixed@.len() - i,
            {
                let ghost before = r@.map_values(|v: EntryVariant| variant_view(v));
                r.push(EntryVariant { orth: owned(mixed[i].as_str()), lemma: owned(entry.lemma.as_str()), entry: entry.copy() });
                proof {
                    assert(mv.take(i + 1) =~= mv.take(i as int).push(mv[i as int]));
                    assert(r@.map_values(|v: EntryVariant| variant_view(v)) =~= before.push(VariantView { orth: mv[i as int], lemma: e.lemma, entry: e }));
                }
                i = i + 1;
            }
            assert(mv.take(mixed@.len() as int) =~= mv);
        } else if !self.has_orth(lower.as_str()) {
            r.push(EntryVariant { orth: lower, lemma: owned(entry.lemma.as_str()), entry: entry.copy() });
        }
        assert(r@.map_values(|v: EntryVariant| variant_view(v)) =~= variants_spec(self.view(), e));
        r
    }
}

/// An entry to be added: its form, lemma, tag and name, and its labels
/// either by id or by the labels string to be stored in the tagset.
pub struct Planned {
    pub orth: Seq<char>,
    pub lemma: Seq<char>,
    pub tag_id: i32,
    pub name_id: i32,
    pub labels_key: Option<Seq<char>>,
    pub labels_id: i32,
}

/// The entry is the planned one, its labels resolved by `labels`.
pub open spec fn planned_ok(e: EntryView, p: Planned, labels: Map<Seq<char>, i32>) -> bool {
    &&& e.orth == p.orth
    &&& e.lemma == p.lemma
    &&& e.tag_id == p.tag_id
    &&& e.name_id == p.name_id
    &&& match p.labels_key {
        Some(k) => labels.contains_key(k) && labels[k] == e.labels_id,
        None => e.labels_id == p.labels_id,
    }
}

/// The entries are the planned ones, in order.
pub open spec fn all_planned(es: Seq<EntryView>, ps: Seq<Planned>, labels: Map<Seq<char>, i32>) -> bool {
    &&& es.len() == ps.len()
    &&& forall|k: int| 0 <= k < es.len() ==> #[trigger] planned_ok(es[k], ps[k], labels)
}

/// Every key of `a` is in `b` with the same value.
pub open spec fn map_within(a: Map<Seq<char>, i32>, b: Map<Seq<char>, i32>) -> bool {
    forall|k: Seq<char>| #[trigger] a.contains_key(k) ==> b.contains_key(k) && b[k] == a[k]
}

/// The entries kept on their own, with their labels reordered.
pub open spec fn standalone_plan(es: Seq<EntryView>, r: IdResolver, standalone: Seq<Seq<char>>, prefixes: Seq<Seq<char>>) -> Seq<Planned>
    decreases es.len(),
{
    if es.len() == 0 {
        Seq::empty()
    } else {
        let rest = standalone_plan(es.drop_last(), r, standalone, prefixes);
        let e = es.last();
        if keeps_standalone(e, r, standalone, prefixes) {
            rest.push(Planned {
                orth: e.orth,
                lemma: e.lemma,
                tag_id: e.tag_id,
                name_id: e.name_id,
                labels_key: Some(crate::id_resolver::normalized_id_value(standalone_labels_spec(e, r, standalone))),
                labels_id: 0,
            })
        } else {
            rest
        }
    }
}

/// The prefixes the hints name: entries tagged `prefs` whose form is a
/// prefix label.
pub open spec fn named_prefixes(es: Seq<EntryView>, r: IdResolver, prefixes: Seq<Seq<char>>) -> Seq<EntryView>
    decreases es.len(),
{
    if es.len() == 0 {
        Seq::empty()
    } else {
        let rest = named_prefixes(es.drop_last(), r, prefixes);
        let e = es.last();
        if tagged(e, r, "prefs"@) && prefixes.contains(e.orth) { rest.push(e) } else { rest }
    }
}

/// The entries a prefix combines with, each with the prefix put before its
/// form and lemma.
pub open spec fn prefixed_for(p: EntryView, es: Seq<EntryView>, r: IdResolver, standalone: Seq<Seq<char>>) -> Seq<Planned>
    decreases es.len(),
{
    if es.len() == 0 {
        Seq::empty()
    } else {
        let rest = prefixed_for(p, es.drop_last(), r, standalone);
        let b = es.last();
        if combines_with(b, p.orth, r) {
            rest.push(Planned {
                orth: p.orth + b.orth,
                lemma: p.orth + b.lemma,
                tag_id: b.tag_id,
                name_id: b.name_id,
                labels_key: Some(crate::id_resolver::normalized_id_value(prefixed_labels_spec(b, p.orth, r, standalone))),
                labels_id: 0,
            })
        } else {
            rest
        }
    }
}

/// The combinations of each named prefix, prefix by prefix.
pub open spec fn prefixed_plan(ps: Seq<EntryView>, es: Seq<EntryView>, r: IdResolver, standalone: Seq<Seq<char>>) -> Seq<Planned>
    decreases ps.len(),
{
    if ps.len() == 0 {
        Seq::empty()
    } else {
        prefixed_plan(ps.drop_last(), es, r, standalone) + prefixed_for(ps.last(), es, r, standalone)
    }
}

/// The entries tagged `t`.
pub open spec fn tagged_entries(es: Seq<EntryView>, r: IdResolver, t: Seq<char>) -> Seq<EntryView>
    decreases es.len(),
{
    if es.len() == 0 {
        Seq::empty()
    } else {
        let rest = tagged_entries(es.drop_last(), r, t);
        if tagged(es.last(), r, t) { rest.push(es.last()) } else { rest }
    }
}

/// The entries whose tag begins with `p`.
pub open spec fn tag_prefixed_entries(es: Seq<EntryView>, r: IdResolver, p: Seq<char>) -> Seq<EntryView>
    decreases es.len(),
{
    if es.len() == 0 {
        Seq::empty()
    } else {
        let rest = tag_prefixed_entries(es.drop_last(), r, p);
        if tag_starts(es.last(), r, p) { rest.push(es.last()) } else { rest }
    }
}

/// An `adja` form put before each `adj:` entry.
pub open spec fn shift_for(a: EntryView, adjs: Seq<EntryView>) -> Seq<Planned> {
    adjs.map_values(|b: EntryView| Planned {
        orth: a.orth + b.orth,
        lemma: a.orth + b.lemma,
        tag_id: b.tag_id,
        name_id: b.name_id,
        labels_key: None,
        labels_id: b.labels_id,
    })
}

/// Each `adja` form put before each `adj:` entry.
pub open spec fn shift_plan(adjas: Seq<EntryView>, adjs: Seq<EntryView>) -> Seq<Planned>
    decreases adjas.len(),
{
    if adjas.len() == 0 {
        Seq::empty()
    } else {
        shift_plan(adjas.drop_last(), adjs) + shift_for(adjas.last(), adjs)
    }
}

pub proof fn lemma_planned_grows(es: Seq<EntryView>, ps: Seq<Planned>, a: Map<Seq<char>, i32>, b: Map<Seq<char>, i32>)
    requires
        all_planned(es, ps, a),
        map_within(a, b),
    ensures
        all_planned(es, ps, b),
{
    assert forall|k: int| 0 <= k < es.len() implies #[trigger] planned_ok(es[k], ps[k], b) by {
        assert(planned_ok(es[k], ps[k], a));
        if ps[k].labels_key is Some {
            assert(a.contains_key(ps[k].labels_key.unwrap()));
        }
    }
}

/// What the dictionary being built and its tagset keep while entries are
/// added: the tagset is the original one with labels added.
pub open spec fn building(out: Dictionary, res: IdResolver, r0: IdResolver) -> bool {
    &&& out.wf()
    &&& out.spec_id() == Seq::<char>::empty()
    &&& out.spec_copyright() == Seq::<char>::empty()
    &&& out.indexed_by_orth()
    &&& out.indexed_by_lemma()
    &&& res.wf()
    &&& res.tag_map() == r0.tag_map()
    &&& res.name_map() == r0.name_map()
    &&& res.tag_strings() == r0.tag_strings()
    &&& res.name_strings() == r0.name_strings()
    &&& res.spec_tagset_id() == r0.spec_tagset_id()
    &&& map_within(r0.label_map(), res.label_map())
    &&& res.labels_len() >= r0.labels_len()
}

/// Adds a planned entry whose labels are given by a string.
fn add_labelled(out: &mut Dictionary, res: &mut IdResolver, orth: String, lemma: String, tag_id: i32, name_id: i32, labels: &str)
    requires
        old(out).wf(),
        old(out).indexed_by_orth(),
        old(out).indexed_by_lemma(),
        old(res).wf(),
        old(res).labels_len() < i32::MAX,
    ensures
        final(out).spec_id() == old(out).spec_id(),
        final(out).spec_copyright() == old(out).spec_copyright(),
        final(out).wf(),
        final(out).indexed_by_orth(),
        final(out).indexed_by_lemma(),
        final(res).wf(),
        final(out).entries_seq() == old(out).entries_seq().push(EntryView {
            orth: orth@, lemma: lemma@, tag_id, name_id,
            labels_id: final(res).label_map()[crate::id_resolver::normalized_id_value(labels@)],
        }),
        final(res).label_map().contains_key(crate::id_resolver::normalized_id_value(labels@)),
        map_within(old(res).label_map(), final(res).label_map()),
        final(res).labels_len() <= old(res).labels_len() + 1,
        final(res).labels_len() >= old(res).labels_len(),
        final(res).tag_map() == old(res).tag_map(),
        final(res).name_map() == old(res).name_map(),
        final(res).tag_strings() == old(res).tag_strings(),
        final(res).name_strings() == old(res).name_strings(),
        final(res).spec_tagset_id() == old(res).spec_tagset_id(),
{
    let labels_id = res.get_or_insert_labels_in_order(labels);
    out.insert(DictionaryEntry { orth, lemma, tag_id, name_id, labels_id });
}

/// Adds the entries kept on their own, with their labels reordered.
fn add_standalone_entries(entries: &[DictionaryEntry], r0: &IdResolver, hints: &SegmentationHints, out: &mut Dictionary, res: &mut IdResolver)
    requires
        r0.wf(),
        hints.standalone_labels.wf(),
        hints.prefix_labels.wf(),
        building(*old(out), *old(res), *r0),
        old(res).labels_len() + entries@.len() < i32::MAX,
    ensures
        final(out).entries_seq().len() >= old(out).entries_seq().len(),
        building(*final(out), *final(res), *r0),
        final(out).entries_seq().take(old(out).entries_seq().len() as int) == old(out).entries_seq(),
        all_planned(final(out).entries_seq().skip(old(out).entries_seq().len() as int),
            standalone_plan(entries_view(entries@), *r0, hints.standalone_labels.view(), hints.prefix_labels.view()),
            final(res).label_map()),
        map_within(old(res).label_map(), final(res).label_map()),
        final(res).labels_len() <= old(res).labels_len() + entries@.len(),
{
    let ghost ev = entries_view(entries@);
    let ghost st = hints.standalone_labels.view();
    let ghost pre = hints.prefix_labels.view();
    let ghost start = out.entries_seq();
    let mut i: usize = 0;
    while i < entries.len()
        invariant
            i <= entries@.len(),
            ev == entries_view(entries@),
            r0.wf(),
            hints.standalone_labels.wf(),
            hints.prefix_labels.wf(),
            st == hints.standalone_labels.view(),
            pre == hints.prefix_labels.view(),
            building(*out, *res, *r0),
            out.entries_seq().take(start.len() as int) == start,
            out.entries_seq().len() >= start.len(),
            all_planned(out.entries_seq().skip(start.len() as int), standalone_plan(ev.take(i as int), *r0, st, pre), res.label_map()),
            map_within(old(res).label_map(), res.label_map()),
            res.labels_len() <= old(res).labels_len() + i,
            old(res).labels_len() + entries@.len() < i32::MAX,
        decreases entries@.len() - i,
    {
        proof {
            assert(ev.take(i + 1).drop_last() =~= ev.take(i as int));
            assert(ev.take(i + 1).last() == entry_view(entries@[i as int]));
        }
        let entry = &entries[i];
        if should_keep_standalone(entry, r0, hints) {
            let labels = ordered_standalone_labels(entry, r0, hints);
            let ghost before_res = *res;
            let ghost before = out.entries_seq();
            add_labelled(out, res, owned(entry.orth.as_str()), owned(entry.lemma.as_str()), entry.tag_id, entry.name_id, labels.as_str());
            proof {
                let plan = standalone_plan(ev.take(i as int), *r0, st, pre);
                lemma_planned_grows(before.skip(start.len() as int), plan, before_res.label_map(), res.label_map());
                assert(out.entries_seq().skip(start.len() as int) =~= before.skip(start.len() as int).push(out.entries_seq().last()));
                assert(out.entries_seq().take(start.len() as int) =~= before.take(start.len() as int));
                let newplan = standalone_plan(ev.take(i + 1), *r0, st, pre);
                assert(newplan == plan.push(newplan.last()));
                assert forall|k: int| 0 <= k < newplan.len() implies
                    #[trigger] planned_ok(out.entries_seq().skip(start.len() as int)[k], newplan[k], res.label_map()) by {
                    if k < plan.len() {
                        assert(planned_ok(before.skip(start.len() as int)[k], plan[k], res.label_map()));
                    }
                }
            }
        }
        i = i + 1;
    }
    assert(ev.take(entries@.len() as int) =~= ev);
}

/// The named prefixes among the entries.
fn named_prefix_entries(entries: &[DictionaryEntry], r0: &IdResolver, hints: &SegmentationHints) -> (r: Vec<DictionaryEntry>)
    requires
        hints.prefix_labels.wf(),
    ensures
        entries_view(r@) == named_prefixes(entries_view(entries@), *r0, hints.prefix_labels.view()),
{
    let ghost ev = entries_view(entries@);
    let mut r: Vec<DictionaryEntry> = Vec::new();
    let mut i: usize = 0;
    while i < entries.len()
        invariant
            i <= entries@.len(),
            ev == entries_view(entries@),
            hints.prefix_labels.wf(),
            entries_view(r@) == named_prefixes(ev.take(i as int), *r0, hints.prefix_labels.view()),
        decreases entries@.len() - i,
    {
        proof {
            assert(ev.take(i + 1).drop_last() =~= ev.take(i as int));
            assert(ev.take(i + 1).last() == entry_view(entries@[i as int]));
        }
        if tag_is(&entries[i], r0, "prefs") && hints.prefix_labels.contains(entries[i].orth.as_str()) {
            let ghost before = entries_view(r@);
            r.push(entries[i].copy());
            assert(entries_view(r@) =~= before.push(entry_view(entries@[i as int])));
        }
        i = i + 1;
    }
    assert(ev.take(entries@.len() as int) =~= ev);
    r
}

/// `a` followed by `b`.
fn concat_strings(a: &str, b: &str) -> (r: String)
    ensures
        r@ == a@ + b@,
{
    let mut r = owned(a);
    push_str(&mut r, b);
    r
}

/// Adds each named prefix put before each entry that combines with it.
fn add_prefixed_entries(entries: &[DictionaryEntry], r0: &IdResolver, hints: &SegmentationHints, out: &mut Dictionary, res: &mut IdResolver)
    requires
        r0.wf(),
        hints.standalone_labels.wf(),
        hints.prefix_labels.wf(),
        building(*old(out), *old(res), *r0),
        old(res).labels_len() + prefixed_plan(named_prefixes(entries_view(entries@), *r0, hints.prefix_labels.view()),
            entries_view(entries@), *r0, hints.standalone_labels.view()).len() < i32::MAX,
    ensures
        final(out).entries_seq().len() >= old(out).entries_seq().len(),
        building(*final(out), *final(res), *r0),
        final(out).entries_seq().take(old(out).entries_seq().len() as int) == old(out).entries_seq(),
        all_planned(final(out).entries_seq().skip(old(out).entries_seq().len() as int),
            prefixed_plan(named_prefixes(entries_view(entries@), *r0, hints.prefix_labels.view()),
                entries_view(entries@), *r0, hints.standalone_labels.view()),
            final(res).label_map()),
        map_within(old(res).label_map(), final(res).label_map()),
{
    let ghost ev = entries_view(entries@);
    let ghost st = hints.standalone_labels.view();
    let ghost start = out.entries_seq();
    let prefixes = named_prefix_entries(entries, r0, hints);
    let ghost pv = entries_view(prefixes@);
    let ghost total = prefixed_plan(pv, ev, *r0, st).len();
    let mut j: usize = 0;
    while j < prefixes.len()
        invariant
            j <= prefixes@.len(),
            ev == entries_view(entries@),
            pv == entries_view(prefixes@),
            total == prefixed_plan(pv, ev, *r0, st).len(),
            r0.wf(),
            hints.standalone_labels.wf(),
            st == hints.standalone_labels.view(),
            building(*out, *res, *r0),
            out.entries_seq().take(start.len() as int) == start,
            out.entries_seq().len() >= start.len(),
            all_planned(out.entries_seq().skip(start.len() as int), prefixed_plan(pv.take(j as int), ev, *r0, st), res.label_map()),
            map_within(old(res).label_map(), res.label_map()),
            res.labels_len() <= old(res).labels_len() + prefixed_plan(pv.take(j as int), ev, *r0, st).len(),
            old(res).labels_len() + total < i32::MAX,
        decreases prefixes@.len() - j,
    {
        let prefix = &prefixes[j];
        let ghost p = entry_view(*prefix);
        let ghost done = prefixed_plan(pv.take(j as int), ev, *r0, st);
        proof {
            assert(pv.take(j + 1).drop_last() =~= pv.take(j as int));
            assert(pv.take(j + 1).last() == p);
            assert(prefixed_plan(pv.take(j + 1), ev, *r0, st) == done + prefixed_for(p, ev, *r0, st));
            lemma_prefixed_plan_prefix(pv, ev, *r0, st, j as int + 1);
        }
        let mut i: usize = 0;
        assert(ev.take(0) =~= Seq::<EntryView>::empty());
        assert(done + prefixed_for(p, ev.take(0), *r0, st) =~= done);
        while i < entries.len()
            invariant
                i <= entries@.len(),
                j < prefixes@.len(),
                ev == entries_view(entries@),
                pv == entries_view(prefixes@),
                p == entry_view(prefixes@[j as int]),
                *prefix == prefixes@[j as int],
                done == prefixed_plan(pv.take(j as int), ev, *r0, st),
                total == prefixed_plan(pv, ev, *r0, st).len(),
                done.len() + prefixed_for(p, ev, *r0, st).len() <= total,
                r0.wf(),
                hints.standalone_labels.wf(),
                st == hints.standalone_labels.view(),
                building(*out, *res, *r0),
                out.entries_seq().take(start.len() as int) == start,
                out.entries_seq().len() >= start.len(),
                all_planned(out.entries_seq().skip(start.len() as int), done + prefixed_for(p, ev.take(i as int), *r0, st), res.label_map()),
                map_within(old(res).label_map(), res.label_map()),
                res.labels_len() <= old(res).labels_len() + done.len() + prefixed_for(p, ev.take(i as int), *r0, st).len(),
                old(res).labels_len() + total < i32::MAX,
            decreases entries@.len() - i,
        {
            let base = &entries[i];
            let ghost b = entry_view(*base);
            let ghost before_plan = done + prefixed_for(p, ev.take(i as int), *r0, st);
            proof {
                assert(ev.take(i + 1).drop_last() =~= ev.take(i as int));
                assert(ev.take(i + 1).last() == b);
                lemma_prefixed_for_prefix(p, ev, *r0, st, i as int + 1);
            }
            if should_combine_with_prefix(base, prefix, r0) {
                let labels = ordered_prefixed_labels(base, prefix, r0, hints);
                let orth = concat_strings(prefix.orth.as_str(), base.orth.as_str());
                let lemma = concat_strings(prefix.orth.as_str(), base.lemma.as_str());
                let ghost before_res = *res;
                let ghost before = out.entries_seq();
                add_labelled(out, res, orth, lemma, base.tag_id, base.name_id, labels.as_str());
                proof {
                    lemma_planned_grows(before.skip(start.len() as int), before_plan, before_res.label_map(), res.label_map());
                    assert(out.entries_seq().skip(start.len() as int) =~= before.skip(start.len() as int).push(out.entries_seq().last()));
                    assert(out.entries_seq().take(start.len() as int) =~= before.take(start.len() as int));
                    let item = Planned {
                        orth: p.orth + b.orth,
                        lemma: p.orth + b.lemma,
                        tag_id: b.tag_id,
                        name_id: b.name_id,
                        labels_key: Some(crate::id_resolver::normalized_id_value(prefixed_labels_spec(b, p.orth, *r0, st))),
                        labels_id: 0,
                    };
                    assert(p.orth == prefix.orth@);
                    assert(combines_with(b, p.orth, *r0));
                    assert(ev.take(i + 1).len() > 0);
                    assert(ev.take(i + 1).last() == b);
                    assert(ev.take(i + 1).drop_last() == ev.take(i as int));
                    assert(prefixed_for(p, ev.take(i + 1), *r0, st) == prefixed_for(p, ev.take(i as int), *r0, st).push(item));
                    let newplan = done + prefixed_for(p, ev.take(i + 1), *r0, st);
                    assert(newplan =~= before_plan.push(item));
                    assert(planned_ok(out.entries_seq().last(), item, res.label_map()));
                    assert forall|k: int| 0 <= k < newplan.len() implies
                        #[trigger] planned_ok(out.entries_seq().skip(start.len() as int)[k], newplan[k], res.label_map()) by {
                        if k < before_plan.len() {
                            assert(planned_ok(before.skip(start.len() as int)[k], before_plan[k], res.label_map()));
                        }
                    }
                }
            } else {
                assert(done + prefixed_for(p, ev.take(i + 1), *r0, st) =~= before_plan);
            }
            i = i + 1;
        }
        assert(ev.take(entries@.len() as int) =~= ev);
        j = j + 1;
    }
    assert(pv.take(prefixes@.len() as int) =~= pv);
}

proof fn lemma_prefixed_for_prefix(p: EntryView, es: Seq<EntryView>, r: IdResolver, st: Seq<Seq<char>>, n: int)
    requires
        0 <= n <= es.len(),
    ensures
        prefixed_for(p, es.take(n), r, st).len() <= prefixed_for(p, es, r, st).len(),
    decreases es.len() - n,
{
    if n < es.len() {
        lemma_prefixed_for_prefix(p, es, r, st, n + 1);
        assert(es.take(n + 1).drop_last() =~= es.take(n));
    } else {
        assert(es.take(n) =~= es);
    }
}

proof fn lemma_prefixed_plan_prefix(ps: Seq<EntryView>, es: Seq<EntryView>, r: IdResolver, st: Seq<Seq<char>>, n: int)
    requires
        0 <= n <= ps.len(),
    ensures
        prefixed_plan(ps.take(n), es, r, st).len() <= prefixed_plan(ps, es, r, st).len(),
    decreases ps.len() - n,
{
    if n < ps.len() {
        lemma_prefixed_plan_prefix(ps, es, r, st, n + 1);
        assert(ps.take(n + 1).drop_last() =~= ps.take(n));
    } else {
        assert(ps.take(n) =~= ps);
    }
}

/// The entries tagged `t`.
fn entries_tagged(entries: &[DictionaryEntry], r0: &IdResolver, t: &str) -> (r: Vec<DictionaryEntry>)
    ensures
        entries_view(r@) == tagged_entries(entries_view(entries@), *r0, t@),
{
    let ghost ev = entries_view(entries@);
    let mut r: Vec<DictionaryEntry> = Vec::new();
    let mut i: usize = 0;
    while i < entries.len()
        invariant
            i <= entries@.len(),
            ev == entries_view(entries@),
            entries_view(r@) == tagged_entries(ev.take(i as int), *r0, t@),
        decreases entries@.len() - i,
    {
        proof {
            assert(ev.take(i + 1).drop_last() =~= ev.take(i as int));
            assert(ev.take(i + 1).last() == entry_view(entries@[i as int]));
        }
        if tag_is(&entries[i], r0, t) {
            let ghost before = entries_view(r@);
            r.push(entries[i].copy());
            assert(entries_view(r@) =~= before.push(entry_view(entries@[i as int])));
        }
        i = i + 1;
    }
    assert(ev.take(entries@.len() as int) =~= ev);
    r
}

/// The entries whose tag begins with `p`.
fn entries_tag_prefixed(entries: &[DictionaryEntry], r0: &IdResolver, p: &str) -> (r: Vec<DictionaryEntry>)
    ensures
        entries_view(r@) == tag_prefixed_entries(entries_view(entries@), *r0, p@),
{
    let ghost ev = entries_view(entries@);
    let mut r: Vec<DictionaryEntry> = Vec::new();
    let mut i: usize = 0;
    while i < entries.len()
        invariant
            i <= entries@.len(),
            ev == entries_view(entries@),
            entries_view(r@) == tag_prefixed_entries(ev.take(i as int), *r0, p@),
        decreases entries@.len() - i,
    {
        proof {
            assert(ev.take(i + 1).drop_last() =~= ev.take(i as int));
            assert(ev.take(i + 1).last() == entry_view(entries@[i as int]));
        }
        if tag_starts_with(&entries[i], r0, p) {
            let ghost before = entries_view(r@);
            r.push(entries[i].copy());
            assert(entries_view(r@) =~= before.push(entry_view(entries@[i as int])));
        }
        i = i + 1;
    }
    assert(ev.take(entries@.len() as int) =~= ev);
    r
}

/// Adds each `adja` form put before each `adj:` entry.
fn add_shift_entries(entries: &[DictionaryEntry], r0: &IdResolver, out: &mut Dictionary)
    requires
        old(out).wf(),
        old(out).indexed_by_orth(),
        old(out).indexed_by_lemma(),
    ensures
        final(out).spec_id() == old(out).spec_id(),
        final(out).spec_copyright() == old(out).spec_copyright(),
        final(out).entries_seq().len() >= old(out).entries_seq().len(),
        final(out).wf(),
        final(out).indexed_by_orth(),
        final(out).indexed_by_lemma(),
        final(out).spec_resolver() == old(out).spec_resolver(),
        final(out).entries_seq().take(old(out).entries_seq().len() as int) == old(out).entries_seq(),
        forall|m: Map<Seq<char>, i32>| all_planned(final(out).entries_seq().skip(old(out).entries_seq().len() as int),
            shift_plan(tagged_entries(entries_view(entries@), *r0, "adja"@),
                tag_prefixed_entries(entries_view(entries@), *r0, "adj:"@)), m),
{
    let ghost start = out.entries_seq();
    let adjas = entries_tagged(entries, r0, "adja");
    let adjs = entries_tag_prefixed(entries, r0, "adj:");
    let ghost av = entries_view(adjas@);
    let ghost bv = entries_view(adjs@);
    let ghost r_start = out.spec_resolver();
    let mut j: usize = 0;
    while j < adjas.len()
        invariant
            j <= adjas@.len(),
            av == entries_view(adjas@),
            bv == entries_view(adjs@),
            out.wf(),
            out.spec_id() == old(out).spec_id(),
            out.spec_copyright() == old(out).spec_copyright(),
            out.indexed_by_orth(),
            out.indexed_by_lemma(),
            out.spec_resolver() == r_start,
            out.entries_seq().take(start.len() as int) == start,
            out.entries_seq().len() >= start.len(),
            forall|m: Map<Seq<char>, i32>| all_planned(out.entries_seq().skip(start.len() as int), shift_plan(av.take(j as int), bv), m),
        decreases adjas@.len() - j,
    {
        let a = &adjas[j];
        let ghost done = shift_plan(av.take(j as int), bv);
        proof {
            assert(av.take(j + 1).drop_last() =~= av.take(j as int));
            assert(av.take(j + 1).last() == entry_view(*a));
        }
        let mut i: usize = 0;
        assert(bv.take(0) =~= Seq::<EntryView>::empty());
        assert(done + shift_for(entry_view(*a), bv.take(0)) =~= done);
        while i < adjs.len()
            invariant
                i <= adjs@.len(),
                j < adjas@.len(),
                *a == adjas@[j as int],
                av == entries_view(adjas@),
                bv == entries_view(adjs@),
                done == shift_plan(av.take(j as int), bv),
                out.wf(),
                out.spec_id() == old(out).spec_id(),
                out.spec_copyright() == old(out).spec_copyright(),
                out.indexed_by_orth(),
                out.indexed_by_lemma(),
                out.spec_resolver() == r_start,
                out.entries_seq().take(start.len() as int) == start,
                out.entries_seq().len() >= start.len(),
                forall|m: Map<Seq<char>, i32>| all_planned(out.entries_seq().skip(start.len() as int),
                    done + shift_for(entry_view(*a), bv.take(i as int)), m),
            decreases adjs@.len() - i,
        {
            let b = &adjs[i];
            let ghost before = out.entries_seq();
            let ghost before_plan = done + shift_for(entry_view(*a), bv.take(i as int));
            let orth = concat_strings(a.orth.as_str(), b.orth.as_str());
            let lemma = concat_strings(a.orth.as_str(), b.lemma.as_str());
            out.insert(DictionaryEntry { orth, lemma, tag_id: b.tag_id, name_id: b.name_id, labels_id: b.labels_id });
            proof {
                let item = Planned {
                    orth: a.orth@ + b.orth@,
                    lemma: a.orth@ + b.lemma@,
                    tag_id: b.tag_id,
                    name_id: b.name_id,
                    labels_key: None,
                    labels_id: b.labels_id,
                };
                assert(bv[i as int] == entry_view(*b));
                assert(shift_for(entry_view(*a), bv.take(i + 1)) =~= shift_for(entry_view(*a), bv.take(i as int)).push(item));
                let newplan = done + shift_for(entry_view(*a), bv.take(i + 1));
                assert(newplan =~= before_plan.push(item));
                assert(out.entries_seq().skip(start.len() as int) =~= before.skip(start.len() as int).push(out.entries_seq().last()));
                assert(out.entries_seq().take(start.len() as int) =~= before.take(start.len() as int));
                assert forall|m: Map<Seq<char>, i32>| all_planned(out.entries_seq().skip(start.len() as int), newplan, m) by {
                    assert(all_planned(before.skip(start.len() as int), before_plan, m));
                    assert forall|k: int| 0 <= k < newplan.len() implies
                        #[trigger] planned_ok(out.entries_seq().skip(start.len() as int)[k], newplan[k], m) by {
                        if k < before_plan.len() {
                            assert(planned_ok(before.skip(start.len() as int)[k], before_plan[k], m));
                        }
                    }
                }
            }
            i = i + 1;
        }
        proof {
            assert(bv.take(adjs@.len() as int) =~= bv);
            assert(shift_plan(av.take(j + 1), bv) == done + shift_for(entry_view(*a), bv));
        }
        j = j + 1;
    }
    assert(av.take(adjas@.len() as int) =~= av);
}

/// The candidate at `i` gives lookup aliases: its form is not lowercase
/// and no earlier candidate has the same form.
pub open spec fn alias_source(cands: Seq<EntryView>, i: int) -> bool {
    &&& lowercased(cands[i].orth) != cands[i].orth
    &&& !(exists|j: int| 0 <= j < i && #[trigger] cands[j].orth == cands[i].orth)
}

/// Where a candidate's aliases go: under its own form when some candidate
/// has its lowercase form, else under the lowercase form.
pub open spec fn alias_key(cands: Seq<EntryView>, e: EntryView) -> Seq<char> {
    if has_orth(cands, lowercased(e.orth)) { e.orth } else { lowercased(e.orth) }
}

/// The readings a candidate's aliases put first: those of its lowercase
/// form when some candidate has it, else those of its own form.
pub open spec fn alias_list(cands: Seq<EntryView>, e: EntryView) -> Seq<EntryView> {
    if has_orth(cands, lowercased(e.orth)) {
        with_orth(cands, lowercased(e.orth))
    } else {
        with_orth(cands, e.orth)
    }
}

/// The readings looked up under `k` once the first `n` candidates gave
/// their aliases, over the readings of the entries `base`.
pub open spec fn aliased_list(cands: Seq<EntryView>, n: nat, base: Seq<EntryView>, k: Seq<char>) -> Seq<EntryView>
    decreases n,
{
    if n == 0 {
        with_orth(base, k)
    } else {
        let prev = aliased_list(cands, (n - 1) as nat, base, k);
        let e = cands[n - 1];
        if n <= cands.len() && alias_source(cands, n - 1) && alias_key(cands, e) == k {
            alias_list(cands, e) + prev
        } else {
            prev
        }
    }
}

/// The dictionary looks `k` up as `f(k)` for every `k`.
pub open spec fn index_is(d: Dictionary, f: spec_fn(Seq<char>) -> Seq<EntryView>) -> bool {
    forall|k: Seq<char>| {
        &&& #[trigger] d.orth_index().dom().contains(k) <==> f(k).len() > 0
        &&& d.orth_index().dom().contains(k) ==> d.orth_index()[k] == f(k)
    }
}

/// The candidates with form `k`, in order.
fn candidates_with_orth(ix: &CaseIndex, k: &str) -> (r: Vec<DictionaryEntry>)
    ensures
        entries_view(r@) == with_orth(ix.view(), k@),
{
    let ghost v = ix.view();
    let mut r: Vec<DictionaryEntry> = Vec::new();
    let mut i: usize = 0;
    while i < ix.entries.len()
        invariant
            i <= ix.entries@.len(),
            v == ix.view(),
            entries_view(r@) == with_orth(v.take(i as int), k@),
        decreases ix.entries@.len() - i,
    {
        let ghost before = entries_view(r@);
        proof {
            assert(v.take(i + 1) =~= v.take(i as int).push(v[i as int]));
            v.take(i as int).lemma_filter_push(v[i as int], |e: EntryView| e.orth == k@);
        }
        if str_eq(ix.entries[i].orth.as_str(), k) {
            r.push(ix.entries[i].copy());
            assert(entries_view(r@) =~= before.push(v[i as int]));
        }
        i = i + 1;
    }
    assert(v.take(ix.entries@.len() as int) =~= v);
    r
}

/// Puts the readings first under `key`, keeping their order.
fn put_first(out: &mut Dictionary, key: &str, list: &Vec<DictionaryEntry>)
    requires
        old(out).wf(),
    ensures
        final(out).generator_index() == old(out).generator_index(),
        final(out).spec_id() == old(out).spec_id(),
        final(out).spec_copyright() == old(out).spec_copyright(),
        final(out).wf(),
        final(out).entries_seq() == old(out).entries_seq(),
        final(out).spec_resolver() == old(out).spec_resolver(),
        forall|k: Seq<char>| k != key@ ==> {
            &&& #[trigger] final(out).orth_index().dom().contains(k) == old(out).orth_index().dom().contains(k)
            &&& final(out).orth_index()[k] == old(out).orth_index()[k]
        },
        list@.len() > 0 ==> final(out).orth_index().dom().contains(key@),
        list@.len() == 0 ==> final(out).orth_index().dom().contains(key@) == old(out).orth_index().dom().contains(key@),
        final(out).orth_index().dom().contains(key@) ==> final(out).orth_index()[key@] == entries_view(list@)
            + (if old(out).orth_index().dom().contains(key@) { old(out).orth_index()[key@] } else { Seq::empty() }),
{
    let ghost lv = entries_view(list@);
    let ghost prev = if out.orth_index().dom().contains(key@) { out.orth_index()[key@] } else { Seq::<EntryView>::empty() };
    let ghost start = out.orth_index();
    let mut t = list.len();
    assert(lv.subrange(t as int, lv.len() as int) =~= Seq::<EntryView>::empty());
    while t > 0
        invariant
            t <= list@.len(),
            lv == entries_view(list@),
            out.wf(),
            out.generator_index() == old(out).generator_index(),
            out.spec_id() == old(out).spec_id(),
            out.spec_copyright() == old(out).spec_copyright(),
            out.entries_seq() == old(out).entries_seq(),
            out.spec_resolver() == old(out).spec_resolver(),
            start == old(out).orth_index(),
            prev == (if start.dom().contains(key@) { start[key@] } else { Seq::<EntryView>::empty() }),
            forall|k: Seq<char>| k != key@ ==> {
                &&& #[trigger] out.orth_index().dom().contains(k) == start.dom().contains(k)
                &&& out.orth_index()[k] == start[k]
            },
            t < list@.len() ==> out.orth_index().dom().contains(key@),
            t == list@.len() ==> out.orth_index() == start,
            out.orth_index().dom().contains(key@) ==> out.orth_index()[key@] == lv.subrange(t as int, lv.len() as int) + prev,
        decreases t,
    {
        t = t - 1;
        let ghost before = out.orth_index();
        out.insert_lookup_alias_front(key, list[t].copy());
        proof {
            assert(lv.subrange(t as int, lv.len() as int) =~= seq![lv[t as int]] + lv.subrange(t + 1, lv.len() as int));
            if !before.dom().contains(key@) {
                assert(t + 1 == list@.len());
                assert(lv.subrange(t + 1, lv.len() as int) =~= Seq::<EntryView>::empty());
                assert(!start.dom().contains(key@));
            }
        }
    }
}

/// Lets lookups of a form in another letter case find the readings of the
/// candidates, as `alias_source`, `alias_key` and `alias_list` describe.
fn insert_case_lookup_aliases(entries: &[DictionaryEntry], r0: &IdResolver, out: &mut Dictionary)
    requires
        old(out).wf(),
        old(out).indexed_by_orth(),
        old(out).indexed_by_lemma(),
    ensures
        final(out).generator_index() == old(out).generator_index(),
        final(out).spec_id() == old(out).spec_id(),
        final(out).spec_copyright() == old(out).spec_copyright(),
        final(out).wf(),
        final(out).entries_seq() == old(out).entries_seq(),
        final(out).spec_resolver() == old(out).spec_resolver(),
        ({
            let cands = candidates(entries_view(entries@), *r0);
            index_is(*final(out), |k: Seq<char>| aliased_list(cands, cands.len(), old(out).entries_seq(), k))
        }),
{
    let ix = CaseIndex::new(entries, r0);
    let ghost cands = ix.view();
    let ghost base = out.entries_seq();
    let mut handled = SortedStrings::new();
    let mut i: usize = 0;
    while i < ix.entries.len()
        invariant
            i <= ix.entries@.len(),
            ix.wf(),
            cands == ix.view(),
            out.wf(),
            out.generator_index() == old(out).generator_index(),
            out.spec_id() == old(out).spec_id(),
            out.spec_copyright() == old(out).spec_copyright(),
            out.entries_seq() == base,
            out.spec_resolver() == old(out).spec_resolver(),
            handled.wf(),
            forall|t: Seq<char>| handled.view().contains(t) <==>
                (exists|j: int| 0 <= j < i && alias_source(cands, j) && #[trigger] cands[j].orth == t),
            forall|j: int| 0 <= j < i && #[trigger] cands[j].orth == cands[j].orth ==> lowercased(cands[j].orth) == lowercased(cands[j].orth),
            index_is(*out, |k: Seq<char>| aliased_list(cands, i as nat, base, k)),
        decreases ix.entries@.len() - i,
    {
        let orth = ix.entries[i].orth.as_str();
        let lower = ix.lowers[i].as_str();
        let ghost e = cands[i as int];
        proof {
            assert(ix.lowers@[i as int]@ == lowercased(ix.entries@[i as int].orth@));
            assert(e.orth == orth@);
        }
        let same = str_eq(lower, orth);
        let seen = if same { true } else { handled.contains(orth) };
        proof {
            if !same {
                assert(seen == (exists|j: int| 0 <= j < i && #[trigger] cands[j].orth == orth@)) by {
                    if exists|j: int| 0 <= j < i && #[trigger] cands[j].orth == orth@ {
                        let j = choose|j: int| 0 <= j < i && #[trigger] cands[j].orth == orth@;
                        lemma_first_orth(cands, j);
                        let f = choose|f: int| 0 <= f <= j && cands[f].orth == cands[j].orth
                            && !(exists|g: int| 0 <= g < f && #[trigger] cands[g].orth == cands[j].orth);
                        assert(alias_source(cands, f));
                        assert(handled.view().contains(orth@));
                    }
                }
            }
        }
        if seen {
            proof {
                assert(!alias_source(cands, i as int));
                assert forall|t: Seq<char>| handled.view().contains(t) <==>
                    (exists|j: int| 0 <= j < i + 1 && alias_source(cands, j) && #[trigger] cands[j].orth == t) by {
                    if exists|j: int| 0 <= j < i + 1 && alias_source(cands, j) && #[trigger] cands[j].orth == t {
                        let j = choose|j: int| 0 <= j < i + 1 && alias_source(cands, j) && #[trigger] cands[j].orth == t;
                        assert(j != i);
                    }
                }
                assert forall|k: Seq<char>| #[trigger] aliased_list(cands, (i + 1) as nat, base, k) == aliased_list(cands, i as nat, base, k) by {}
            }
            i = i + 1;
            continue;
        }
        let ghost before_handled = handled.view();
        handled.insert(orth);
        let has_lower = ix.has_orth(lower);
        let key = if has_lower { orth } else { lower };
        let list = if has_lower { candidates_with_orth(&ix, lower) } else { candidates_with_orth(&ix, orth) };
        proof {
            assert(alias_source(cands, i as int));
            assert(key@ == alias_key(cands, e));
            assert(entries_view(list@) == alias_list(cands, e));
        }
        let ghost before = *out;
        put_first(out, key, &list);
        proof {
            assert forall|t: Seq<char>| handled.view().contains(t) <==>
                (exists|j: int| 0 <= j < i + 1 && alias_source(cands, j) && #[trigger] cands[j].orth == t) by {
                if t == orth@ {
                    assert(cands[i as int].orth == t);
                }
                if exists|j: int| 0 <= j < i + 1 && alias_source(cands, j) && #[trigger] cands[j].orth == t {
                    let j = choose|j: int| 0 <= j < i + 1 && alias_source(cands, j) && #[trigger] cands[j].orth == t;
                    if j < i {
                        assert(before_handled.contains(t));
                    }
                }
            }
            assert forall|k: Seq<char>| {
                &&& #[trigger] out.orth_index().dom().contains(k) <==> aliased_list(cands, (i + 1) as nat, base, k).len() > 0
                &&& out.orth_index().dom().contains(k) ==> out.orth_index()[k] == aliased_list(cands, (i + 1) as nat, base, k)
            } by {
                let prev = aliased_list(cands, i as nat, base, k);
                assert(before.orth_index().dom().contains(k) <==> prev.len() > 0);
                if k == key@ {
                    assert(aliased_list(cands, (i + 1) as nat, base, k) == alias_list(cands, e) + prev);
                    if entries_view(list@).len() == 0 && !before.orth_index().dom().contains(k) {
                        assert(alias_list(cands, e) + prev =~= Seq::<EntryView>::empty());
                    }
                } else {
                    assert(aliased_list(cands, (i + 1) as nat, base, k) == prev);
                }
            }
        }
        i = i + 1;
    }
    proof {
        assert(cands == candidates(entries_view(entries@), *r0));
    }
}

/// Some earlier-or-equal index holds the first occurrence of a form.
proof fn lemma_first_orth(s: Seq<EntryView>, j: int)
    requires
        0 <= j < s.len(),
    ensures
        exists|f: int| 0 <= f <= j && s[f].orth == s[j].orth
            && !(exists|g: int| 0 <= g < f && #[trigger] s[g].orth == s[j].orth),
    decreases j,
{
    if exists|g: int| 0 <= g < j && #[trigger] s[g].orth == s[j].orth {
        let g = choose|g: int| 0 <= g < j && #[trigger] s[g].orth == s[j].orth;
        lemma_first_orth(s, g);
        let f = choose|f: int| 0 <= f <= g && s[f].orth == s[g].orth
            && !(exists|h: int| 0 <= h < f && #[trigger] s[h].orth == s[g].orth);
        assert(0 <= f <= j && s[f].orth == s[j].orth);
    } else {
        assert(s[j].orth == s[j].orth);
    }
}

/// The entry a prefix spelling and a base spelling make, joined by `sep`.
pub open spec fn prefixed_combo(pv: PieceView, sep: Seq<char>, bv: VariantView) -> EntryView {
    EntryView {
        orth: pv.orth + sep + bv.orth,
        lemma: pv.lemma + sep + bv.lemma,
        tag_id: bv.entry.tag_id,
        name_id: bv.entry.name_id,
        labels_id: bv.entry.labels_id,
    }
}

/// A prefix spelling joined with each spelling of each base.
pub open spec fn combos_bases(pv: PieceView, sep: Seq<char>, bases: Seq<EntryView>, cands: Seq<EntryView>) -> Seq<EntryView>
    decreases bases.len(),
{
    if bases.len() == 0 {
        Seq::empty()
    } else {
        combos_bases(pv, sep, bases.drop_last(), cands)
            + variants_spec(cands, bases.last()).map_values(|bv: VariantView| prefixed_combo(pv, sep, bv))
    }
}

/// Each spelling of a prefix joined with each spelling of each base.
pub open spec fn combos_pieces(pvs: Seq<PieceView>, sep: Seq<char>, bases: Seq<EntryView>, cands: Seq<EntryView>) -> Seq<EntryView>
    decreases pvs.len(),
{
    if pvs.len() == 0 {
        Seq::empty()
    } else {
        combos_pieces(pvs.drop_last(), sep, bases, cands) + combos_bases(pvs.last(), sep, bases, cands)
    }
}

/// Each spelling of each prefix joined by `sep` with each spelling of each
/// base.
pub open spec fn prefixed_subst_list(ps: Seq<EntryView>, sep: Seq<char>, bases: Seq<EntryView>, cands: Seq<EntryView>) -> Seq<EntryView>
    decreases ps.len(),
{
    if ps.len() == 0 {
        Seq::empty()
    } else {
        prefixed_subst_list(ps.drop_last(), sep, bases, cands)
            + combos_pieces(prefix_variants_spec(ps.last()), sep, bases, cands)
    }
}

/// The compound of two noun spellings joined by a hyphen.
pub open spec fn hyphen_combo(lv: VariantView, rv: VariantView) -> EntryView {
    EntryView {
        orth: lv.orth + seq!['-'] + rv.orth,
        lemma: lemma_base_of(lv.lemma) + seq!['-'] + rv.lemma,
        tag_id: rv.entry.tag_id,
        name_id: rv.entry.name_id,
        labels_id: rv.entry.labels_id,
    }
}

/// A left spelling joined with each spelling of each right noun.
pub open spec fn right_combos(lv: VariantView, rights: Seq<EntryView>, cands: Seq<EntryView>) -> Seq<EntryView>
    decreases rights.len(),
{
    if rights.len() == 0 {
        Seq::empty()
    } else {
        right_combos(lv, rights.drop_last(), cands)
            + variants_spec(cands, rights.last()).map_values(|rv: VariantView| hyphen_combo(lv, rv))
    }
}

/// Each left spelling joined with each spelling of each right noun.
pub open spec fn left_variant_combos(lvs: Seq<VariantView>, rights: Seq<EntryView>, cands: Seq<EntryView>) -> Seq<EntryView>
    decreases lvs.len(),
{
    if lvs.len() == 0 {
        Seq::empty()
    } else {
        left_variant_combos(lvs.drop_last(), rights, cands) + right_combos(lvs.last(), rights, cands)
    }
}

/// Each spelling of each noun joined by a hyphen with each spelling of
/// each noun.
pub open spec fn hyphen_list(lefts: Seq<EntryView>, rights: Seq<EntryView>, cands: Seq<EntryView>) -> Seq<EntryView>
    decreases lefts.len(),
{
    if lefts.len() == 0 {
        Seq::empty()
    } else {
        hyphen_list(lefts.drop_last(), rights, cands)
            + left_variant_combos(variants_spec(cands, lefts.last()), rights, cands)
    }
}

/// The entries, each kept only the first time it occurs.
pub open spec fn first_occurrences(s: Seq<EntryView>) -> Seq<EntryView>
    decreases s.len(),
{
    if s.len() == 0 {
        Seq::empty()
    } else {
        let rest = first_occurrences(s.drop_last());
        if rest.contains(s.last()) { rest } else { rest.push(s.last()) }
    }
}

/// Appends a spelling of a prefix joined with each spelling of each base.
fn push_piece_combos(pv: &PieceVariant, sep: &str, bases: &[DictionaryEntry], ix: &CaseIndex, out: &mut Vec<DictionaryEntry>)
    requires
        ix.wf(),
    ensures
        entries_view(final(out)@) == entries_view(old(out)@) + combos_bases(piece_view(*pv), sep@, entries_view(bases@), ix.view()),
{
    let ghost bv = entries_view(bases@);
    let ghost start = entries_view(out@);
    let ghost p = piece_view(*pv);
    let mut k: usize = 0;
    assert(bv.take(0) =~= Seq::<EntryView>::empty());
    assert(start + combos_bases(p, sep@, bv.take(0), ix.view()) =~= start);
    while k < bases.len()
        invariant
            k <= bases@.len(),
            ix.wf(),
            bv == entries_view(bases@),
            p == piece_view(*pv),
            entries_view(out@) == start + combos_bases(p, sep@, bv.take(k as int), ix.view()),
        decreases bases@.len() - k,
    {
        let variants = ix.variants_for_entry(&bases[k]);
        let ghost vv = variants@.map_values(|v: EntryVariant| variant_view(v));
        let ghost mid = entries_view(out@);
        let mut m: usize = 0;
        assert(vv.take(0).map_values(|v: VariantView| prefixed_combo(p, sep@, v)) =~= Seq::<EntryView>::empty());
        assert(mid + vv.take(0).map_values(|v: VariantView| prefixed_combo(p, sep@, v)) =~= mid);
        while m < variants.len()
            invariant
                m <= variants@.len(),
                vv == variants@.map_values(|v: EntryVariant| variant_view(v)),
                p == piece_view(*pv),
                entries_view(out@) == mid + vv.take(m as int).map_values(|v: VariantView| prefixed_combo(p, sep@, v)),
            decreases variants@.len() - m,
        {
            let v = &variants[m];
            let mut orth = concat_strings(pv.orth.as_str(), sep);
            push_str(&mut orth, v.orth.as_str());
            let mut lemma = concat_strings(pv.lemma.as_str(), sep);
            push_str(&mut lemma, v.lemma.as_str());
            let ghost before = entries_view(out@);
            out.push(DictionaryEntry { orth, lemma, tag_id: v.entry.tag_id, name_id: v.entry.name_id, labels_id: v.entry.labels_id });
            proof {
                assert(vv[m as int] == variant_view(*v));
                assert(vv.take(m + 1) =~= vv.take(m as int).push(vv[m as int]));
                assert(entries_view(out@) =~= before.push(prefixed_combo(p, sep@, vv[m as int])));
                assert(vv.take(m + 1).map_values(|x: VariantView| prefixed_combo(p, sep@, x))
                    =~= vv.take(m as int).map_values(|x: VariantView| prefixed_combo(p, sep@, x)).push(prefixed_combo(p, sep@, vv[m as int])));
            }
            m = m + 1;
        }
        proof {
            assert(vv.take(variants@.len() as int) =~= vv);
            assert(bv.take(k + 1).drop_last() =~= bv.take(k as int));
            assert(bv.take(k + 1).last() == entry_view(bases@[k as int]));
            assert(vv == variants_spec(ix.view(), entry_view(bases@[k as int])));
        }
        k = k + 1;
    }
    assert(bv.take(bases@.len() as int) =~= bv);
}

/// Appends each spelling of each prefix joined by `sep` with each spelling
/// of each base.
fn push_prefixed_subst_combos(prefixes: &[DictionaryEntry], sep: &str, bases: &[DictionaryEntry], ix: &CaseIndex, out: &mut Vec<DictionaryEntry>)
    requires
        ix.wf(),
    ensures
        entries_view(final(out)@) == entries_view(old(out)@)
            + prefixed_subst_list(entries_view(prefixes@), sep@, entries_view(bases@), ix.view()),
{
    let ghost pv_all = entries_view(prefixes@);
    let ghost bv = entries_view(bases@);
    let ghost start = entries_view(out@);
    let mut j: usize = 0;
    assert(pv_all.take(0) =~= Seq::<EntryView>::empty());
    assert(start + prefixed_subst_list(pv_all.take(0), sep@, bv, ix.view()) =~= start);
    while j < prefixes.len()
        invariant
            j <= prefixes@.len(),
            ix.wf(),
            pv_all == entries_view(prefixes@),
            bv == entries_view(bases@),
            entries_view(out@) == start + prefixed_subst_list(pv_all.take(j as int), sep@, bv, ix.view()),
        decreases prefixes@.len() - j,
    {
        let pieces = prefix_variants(&prefixes[j]);
        let ghost pw = pieces@.map_values(|x: PieceVariant| piece_view(x));
        let ghost mid = entries_view(out@);
        let mut m: usize = 0;
        assert(pw.take(0) =~= Seq::<PieceView>::empty());
        assert(mid + combos_pieces(pw.take(0), sep@, bv, ix.view()) =~= mid);
        while m < pieces.len()
            invariant
                m <= pieces@.len(),
                ix.wf(),
                pw == pieces@.map_values(|x: PieceVariant| piece_view(x)),
                bv == entries_view(bases@),
                entries_view(out@) == mid + combos_pieces(pw.take(m as int), sep@, bv, ix.view()),
            decreases pieces@.len() - m,
        {
            let ghost before = entries_view(out@);
            push_piece_combos(&pieces[m], sep, bases, ix, out);
            proof {
                assert(pw.take(m + 1).drop_last() =~= pw.take(m as int));
                assert(pw.take(m + 1).last() == piece_view(pieces@[m as int]));
            }
            m = m + 1;
        }
        proof {
            assert(pw.take(pieces@.len() as int) =~= pw);
            assert(pv_all.take(j + 1).drop_last() =~= pv_all.take(j as int));
            assert(pv_all.take(j + 1).last() == entry_view(prefixes@[j as int]));
        }
        j = j + 1;
    }
    assert(pv_all.take(prefixes@.len() as int) =~= pv_all);
}

/// Appends a left spelling joined by a hyphen with each spelling of each
/// right noun.
fn push_right_combos(lv: &EntryVariant, rights: &[DictionaryEntry], ix: &CaseIndex, out: &mut Vec<DictionaryEntry>)
    requires
        ix.wf(),
    ensures
        entries_view(final(out)@) == entries_view(old(out)@) + right_combos(variant_view(*lv), entries_view(rights@), ix.view()),
{
    let ghost rv_all = entries_view(rights@);
    let ghost start = entries_view(out@);
    let ghost l = variant_view(*lv);
    let left_base = lemma_base(lv.lemma.as_str());
    let mut k: usize = 0;
    assert(rv_all.take(0) =~= Seq::<EntryView>::empty());
    assert(start + right_combos(l, rv_all.take(0), ix.view()) =~= start);
    while k < rights.len()
        invariant
            k <= rights@.len(),
            ix.wf(),
            rv_all == entries_view(rights@),
            l == variant_view(*lv),
            left_base@ == lemma_base_of(l.lemma),
            entries_view(out@) == start + right_combos(l, rv_all.take(k as int), ix.view()),
        decreases rights@.len() - k,
    {
        let variants = ix.variants_for_entry(&rights[k]);
        let ghost vv = variants@.map_values(|v: EntryVariant| variant_view(v));
        let ghost mid = entries_view(out@);
        let mut m: usize = 0;
        assert(vv.take(0).map_values(|v: VariantView| hyphen_combo(l, v)) =~= Seq::<EntryView>::empty());
        assert(mid + vv.take(0).map_values(|v: VariantView| hyphen_combo(l, v)) =~= mid);
        while m < variants.len()
            invariant
                m <= variants@.len(),
                vv == variants@.map_values(|v: EntryVariant| variant_view(v)),
                l == variant_view(*lv),
                left_base@ == lemma_base_of(l.lemma),
                entries_view(out@) == mid + vv.take(m as int).map_values(|v: VariantView| hyphen_combo(l, v)),
            decreases variants@.len() - m,
        {
            let v = &variants[m];
            let mut orth = concat_strings(lv.orth.as_str(), "-");
            push_str(&mut orth, v.orth.as_str());
            let mut lemma = concat_strings(left_base.as_str(), "-");
            push_str(&mut lemma, v.lemma.as_str());
            let ghost before = entries_view(out@);
            out.push(DictionaryEntry { orth, lemma, tag_id: v.entry.tag_id, name_id: v.entry.name_id, labels_id: v.entry.labels_id });
            proof {
                reveal_strlit("-");
                assert("-"@ =~= seq!['-']);
                assert(vv[m as int] == variant_view(*v));
                assert(vv.take(m + 1) =~= vv.take(m as int).push(vv[m as int]));
                assert(entries_view(out@) =~= before.push(hyphen_combo(l, vv[m as int])));
                assert(vv.take(m + 1).map_values(|x: VariantView| hyphen_combo(l, x))
                    =~= vv.take(m as int).map_values(|x: VariantView| hyphen_combo(l, x)).push(hyphen_combo(l, vv[m as int])));
            }
            m = m + 1;
        }
        proof {
            assert(vv.take(variants@.len() as int) =~= vv);
            assert(rv_all.take(k + 1).drop_last() =~= rv_all.take(k as int));
            assert(rv_all.take(k + 1).last() == entry_view(rights@[k as int]));
            assert(vv == variants_spec(ix.view(), entry_view(rights@[k as int])));
        }
        k = k + 1;
    }
    assert(rv_all.take(rights@.len() as int) =~= rv_all);
}

/// Appends each spelling of each noun joined by a hyphen with each
/// spelling of each noun.
fn push_hyphen_combos(substs: &[DictionaryEntry], ix: &CaseIndex, out: &mut Vec<DictionaryEntry>)
    requires
        ix.wf(),
    ensures
        entries_view(final(out)@) == entries_view(old(out)@) + hyphen_list(entries_view(substs@), entries_view(substs@), ix.view()),
{
    let ghost sv = entries_view(substs@);
    let ghost start = entries_view(out@);
    let mut j: usize = 0;
    assert(sv.take(0) =~= Seq::<EntryView>::empty());
    assert(start + hyphen_list(sv.take(0), sv, ix.view()) =~= start);
    while j < substs.len()
        invariant
            j <= substs@.len(),
            ix.wf(),
            sv == entries_view(substs@),
            entries_view(out@) == start + hyphen_list(sv.take(j as int), sv, ix.view()),
        decreases substs@.len() - j,
    {
        let lefts = ix.variants_for_entry(&substs[j]);
        let ghost lw = lefts@.map_values(|v: EntryVariant| variant_view(v));
        let ghost mid = entries_view(out@);
        let mut m: usize = 0;
        assert(lw.take(0) =~= Seq::<VariantView>::empty());
        assert(mid + left_variant_combos(lw.take(0), sv, ix.view()) =~= mid);
        while m < lefts.len()
            invariant
                m <= lefts@.len(),
                ix.wf(),
                lw == lefts@.map_values(|v: EntryVariant| variant_view(v)),
                sv == entries_view(substs@),
                entries_view(out@) == mid + left_variant_combos(lw.take(m as int), sv, ix.view()),
            decreases lefts@.len() - m,
        {
            push_right_combos(&lefts[m], substs, ix, out);
            proof {
                assert(lw.take(m + 1).drop_last() =~= lw.take(m as int));
                assert(lw.take(m + 1).last() == variant_view(lefts@[m as int]));
            }
            m = m + 1;
        }
        proof {
            assert(lw.take(lefts@.len() as int) =~= lw);
            assert(sv.take(j + 1).drop_last() =~= sv.take(j as int));
            assert(sv.take(j + 1).last() == entry_view(substs@[j as int]));
        }
        j = j + 1;
    }
    assert(sv.take(substs@.len() as int) =~= sv);
}

/// Whether an entry with the same content is among the entries.
fn contains_entry(entries: &Vec<DictionaryEntry>, entry: &DictionaryEntry) -> (r: bool)
    ensures
        r == entries_view(entries@).contains(entry_view(*entry)),
{
    let ghost ev = entries_view(entries@);
    let mut i: usize = 0;
    while i < entries.len()
        invariant
            i <= entries@.len(),
            ev == entries_view(entries@),
            forall|j: int| 0 <= j < i ==> #[trigger] ev[j] != entry_view(*entry),
        decreases entries@.len() - i,
    {
        let e = &entries[i];
        if str_eq(e.orth.as_str(), entry.orth.as_str()) && str_eq(e.lemma.as_str(), entry.lemma.as_str())
            && e.tag_id == entry.tag_id && e.name_id == entry.name_id && e.labels_id == entry.labels_id {
            assert(ev[i as int] == entry_view(*entry));
            return true;
        }
        assert(ev[i as int] != entry_view(*entry));
        i = i + 1;
    }
    false
}

/// Adds the entries of the list, each the first time it occurs.
fn insert_first_occurrences(out: &mut Dictionary, list: &Vec<DictionaryEntry>)
    requires
        old(out).wf(),
    ensures
        old(out).indexed_by_lemma() ==> final(out).indexed_by_lemma(),
        final(out).spec_id() == old(out).spec_id(),
        final(out).spec_copyright() == old(out).spec_copyright(),
        final(out).wf(),
        final(out).entries_seq() == old(out).entries_seq() + first_occurrences(entries_view(list@)),
        final(out).spec_resolver() == old(out).spec_resolver(),
        forall|f: spec_fn(Seq<char>) -> Seq<EntryView>| index_is(*old(out), f) ==>
            index_is(*final(out), |k: Seq<char>| f(k) + with_orth(first_occurrences(entries_view(list@)), k)),
{
    let ghost lv = entries_view(list@);
    let ghost start = out.entries_seq();
    let ghost start_out = *out;
    let mut added: Vec<DictionaryEntry> = Vec::new();
    let mut i: usize = 0;
    assert(lv.take(0) =~= Seq::<EntryView>::empty());
    while i < list.len()
        invariant
            i <= list@.len(),
            lv == entries_view(list@),
            out.wf(),
            old(out).indexed_by_lemma() ==> out.indexed_by_lemma(),
            out.spec_id() == old(out).spec_id(),
            out.spec_copyright() == old(out).spec_copyright(),
            out.spec_resolver() == start_out.spec_resolver(),
            start == start_out.entries_seq(),
            entries_view(added@) == first_occurrences(lv.take(i as int)),
            out.entries_seq() == start + entries_view(added@),
            forall|f: spec_fn(Seq<char>) -> Seq<EntryView>| index_is(start_out, f) ==>
                index_is(*out, |k: Seq<char>| f(k) + with_orth(entries_view(added@), k)),
        decreases list@.len() - i,
    {
        let item = &list[i];
        proof {
            assert(lv.take(i + 1).drop_last() =~= lv.take(i as int));
            assert(lv.take(i + 1).last() == entry_view(*item));
        }
        if !contains_entry(&added, item) {
            let ghost before_out = *out;
            let ghost before_added = entries_view(added@);
            out.insert(item.copy());
            added.push(item.copy());
            proof {
                let e = entry_view(*item);
                assert(entries_view(added@) =~= before_added.push(e));
                assert(out.entries_seq() =~= start + entries_view(added@));
                assert forall|f: spec_fn(Seq<char>) -> Seq<EntryView>| index_is(start_out, f) implies
                    index_is(*out, |k: Seq<char>| f(k) + with_orth(entries_view(added@), k)) by {
                    assert(index_is(before_out, |k: Seq<char>| f(k) + with_orth(before_added, k)));
                    assert forall|k: Seq<char>| {
                        &&& #[trigger] out.orth_index().dom().contains(k) <==> (f(k) + with_orth(entries_view(added@), k)).len() > 0
                        &&& out.orth_index().dom().contains(k) ==> out.orth_index()[k] == f(k) + with_orth(entries_view(added@), k)
                    } by {
                        before_added.lemma_filter_push(e, |x: EntryView| x.orth == k);
                        let old_list = f(k) + with_orth(before_added, k);
                        assert(before_out.orth_index().dom().contains(k) <==> old_list.len() > 0);
                        if k == e.orth {
                            assert(with_orth(entries_view(added@), k) == with_orth(before_added, k).push(e));
                            assert(f(k) + with_orth(entries_view(added@), k) =~= old_list.push(e));
                            if !before_out.orth_index().dom().contains(k) {
                                assert(old_list =~= Seq::<EntryView>::empty());
                            }
                        } else {
                            assert(with_orth(entries_view(added@), k) == with_orth(before_added, k));
                        }
                    }
                }
            }
        }
        i = i + 1;
    }
    assert(lv.take(list@.len() as int) =~= lv);
}

/// The entries a dictionary gains from the hints, before duplicates are
/// left out: prefixes joined with nouns, then `nie-` with nouns, then nouns
/// joined by a hyphen, as far as the hints allow each.
pub open spec fn compound_list(es: Seq<EntryView>, r: IdResolver, h: SegmentationHints) -> Seq<EntryView> {
    let cands = candidates(es, r);
    let substs = tag_prefixed_entries(es, r, "subst:"@);
    let prefs = tagged_entries(es, r, "prefs"@);
    (if h.prefs_subst { prefixed_subst_list(prefs, Seq::empty(), substs, cands) } else { Seq::empty() })
    + (if h.prefs_dywiz_subst { prefixed_subst_list(prefs, seq!['-'], substs, cands) } else { Seq::empty() })
    + (if h.nie_dywiz_subst { prefixed_subst_list(tagged_entries(es, r, "nie"@), seq!['-'], substs, cands) } else { Seq::empty() })
    + (if h.subst_dywiz_subst { hyphen_list(substs, substs, cands) } else { Seq::empty() })
}

/// The entries a dictionary keeps or gains from the hints, in order, with
/// labels given by strings where they are reordered.
pub open spec fn hints_plan(es: Seq<EntryView>, r: IdResolver, h: SegmentationHints) -> Seq<Planned> {
    let st = h.standalone_labels.view();
    let pre = h.prefix_labels.view();
    standalone_plan(es, r, st, pre)
        + prefixed_plan(named_prefixes(es, r, pre), es, r, st)
        + (if h.shift_adja_adj {
            shift_plan(tagged_entries(es, r, "adja"@), tag_prefixed_entries(es, r, "adj:"@))
        } else {
            Seq::empty()
        })
}

/// The dictionary is what the hints make of `input`.
pub open spec fn hints_applied(d: Dictionary, input: Dictionary, h: SegmentationHints) -> bool {
    let es = input.entries_seq();
    let r = input.spec_resolver();
    let plan = hints_plan(es, r, h);
    let compounds = first_occurrences(compound_list(es, r, h));
    let cands = candidates(es, r);
    &&& d.wf()
    &&& d.indexed_by_lemma()
    &&& d.spec_id() == Seq::<char>::empty()
    &&& d.spec_copyright() == Seq::<char>::empty()
    &&& d.entries_seq().len() == plan.len() + compounds.len()
    &&& all_planned(d.entries_seq().take(plan.len() as int), plan, d.spec_resolver().label_map())
    &&& d.entries_seq().skip(plan.len() as int) == compounds
    &&& index_is(d, |k: Seq<char>| aliased_list(cands, cands.len(), d.entries_seq().take(plan.len() as int), k)
        + with_orth(compounds, k))
    &&& d.spec_resolver().tag_map() == r.tag_map()
    &&& d.spec_resolver().name_map() == r.name_map()
    &&& d.spec_resolver().tag_strings() == r.tag_strings()
    &&& d.spec_resolver().name_strings() == r.name_strings()
    &&& d.spec_resolver().spec_tagset_id() == r.spec_tagset_id()
    &&& map_within(r.label_map(), d.spec_resolver().label_map())
}

/// A dictionary rebuilt as the segmentation hints say: entries kept on
/// their own with reordered labels, named prefixes joined with the entries
/// they label, `adja` forms joined with `adj:` entries, lookups shared
/// between letter cases, and compounds of prefixes, `nie` and nouns. A
/// dictionary is returned unchanged when the hints ask for nothing.
pub fn apply_segmentation_hints(dictionary: Dictionary, hints: &SegmentationHints) -> (d: Dictionary)
    requires
        dictionary.wf(),
        hints.standalone_labels.wf(),
        hints.prefix_labels.wf(),
        asks_changes(*hints) ==> hints_fit(dictionary, *hints),
    ensures
        hints_result(d, dictionary, *hints),
{
    if !hints.has_rules() {
        return dictionary;
    }
    let r0 = dictionary.resolver();
    let entries = dictionary.entries();
    let ghost es = entries_view(entries@);
    let ghost st = hints.standalone_labels.view();
    let ghost pre = hints.prefix_labels.view();
    let mut res = r0.copy();
    let mut out = Dictionary::new(IdResolver::default());
    proof {
        assert(res.labels_len() == r0.labels_len());
        assert(map_within(r0.label_map(), res.label_map()));
        assert(out.entries_seq().take(0) =~= out.entries_seq());
    }
    add_standalone_entries(entries, r0, hints, &mut out, &mut res);
    let ghost after1 = out.entries_seq();
    let ghost res1 = res;
    add_prefixed_entries(entries, r0, hints, &mut out, &mut res);
    let ghost after2 = out.entries_seq();
    let ghost res2 = res;
    if hints.shift_adja_adj {
        add_shift_entries(entries, r0, &mut out);
    }
    let ghost after3 = out.entries_seq();
    proof {
        let p1 = standalone_plan(es, *r0, st, pre);
        let p2 = prefixed_plan(named_prefixes(es, *r0, pre), es, *r0, st);
        let p3 = if hints.shift_adja_adj {
            shift_plan(tagged_entries(es, *r0, "adja"@), tag_prefixed_entries(es, *r0, "adj:"@))
        } else {
            Seq::<Planned>::empty()
        };
        assert(after1.take(0) =~= Seq::<EntryView>::empty());
        assert(after1.skip(0) =~= after1);
        lemma_planned_grows(after1, p1, res1.label_map(), res.label_map());
        lemma_planned_grows(after2.skip(after1.len() as int), p2, res2.label_map(), res.label_map());
        if !hints.shift_adja_adj {
            assert(after3.skip(after2.len() as int) =~= Seq::<EntryView>::empty());
        }
        assert(all_planned(after3.skip(after2.len() as int), p3, res.label_map()));
        assert(after2 =~= after1 + after2.skip(after1.len() as int));
        assert(after3 =~= after2 + after3.skip(after2.len() as int));
        lemma_planned_concat(after1, after2.skip(after1.len() as int), p1, p2, res.label_map());
        lemma_planned_concat(after2, after3.skip(after2.len() as int), p1 + p2, p3, res.label_map());
        assert(hints_plan(es, *r0, *hints) == p1 + p2 + p3);
    }
    insert_case_lookup_aliases(entries, r0, &mut out);
    let ix = CaseIndex::new(entries, r0);
    let substs = entries_tag_prefixed(entries, r0, "subst:");
    let prefs = entries_tagged(entries, r0, "prefs");
    let mut compounds: Vec<DictionaryEntry> = Vec::new();
    proof {
        reveal_strlit("");
        reveal_strlit("-");
        assert(""@ =~= Seq::<char>::empty());
        assert("-"@ =~= seq!['-']);
    }
    let ghost c0 = entries_view(compounds@);
    if hints.prefs_subst {
        push_prefixed_subst_combos(prefs.as_slice(), "", substs.as_slice(), &ix, &mut compounds);
    }
    let ghost c1 = entries_view(compounds@);
    if hints.prefs_dywiz_subst {
        push_prefixed_subst_combos(prefs.as_slice(), "-", substs.as_slice(), &ix, &mut compounds);
    }
    let ghost c2 = entries_view(compounds@);
    if hints.nie_dywiz_subst {
        let nies = entries_tagged(entries, r0, "nie");
        push_prefixed_subst_combos(nies.as_slice(), "-", substs.as_slice(), &ix, &mut compounds);
    }
    let ghost c3 = entries_view(compounds@);
    if hints.subst_dywiz_subst {
        push_hyphen_combos(substs.as_slice(), &ix, &mut compounds);
    }
    proof {
        assert(c0 =~= Seq::<EntryView>::empty());
        assert(entries_view(compounds@) =~= compound_list(es, *r0, *hints));
    }
    let ghost before4 = out;
    insert_first_occurrences(&mut out, &compounds);
    out.set_resolver(res);
    proof {
        let plan = hints_plan(es, *r0, *hints);
        let cands = candidates(es, *r0);
        let compounds = first_occurrences(compound_list(es, *r0, *hints));
        assert(after3.len() == plan.len());
        assert(out.entries_seq() == after3 + compounds);
        assert(out.entries_seq().take(plan.len() as int) =~= after3);
        assert(out.entries_seq().skip(plan.len() as int) =~= compounds);
        assert(all_planned(out.entries_seq().take(plan.len() as int), plan, out.spec_resolver().label_map()));
        assert(index_is(out, |k: Seq<char>| aliased_list(cands, cands.len(), out.entries_seq().take(plan.len() as int), k)
            + with_orth(compounds, k)));
        assert(out.spec_resolver().tag_map() == r0.tag_map());
        assert(out.spec_resolver().tag_strings() == r0.tag_strings());
        assert(out.spec_resolver().spec_tagset_id() == r0.spec_tagset_id());
        assert(map_within(r0.label_map(), out.spec_resolver().label_map()));
        assert(out.spec_id() == Seq::<char>::empty());
    }
    out
}

/// Whether the hints ask for any change to the dictionary.
pub open spec fn asks_changes(h: SegmentationHints) -> bool {
    h.prefix_labels.view().len() > 0 || h.shift_adja_adj || h.prefs_subst || h.prefs_dywiz_subst
        || h.nie_dywiz_subst || h.subst_dywiz_subst
}

/// The label ids a dictionary can gain from the hints still fit in an `i32`.
pub open spec fn hints_fit(d: Dictionary, h: SegmentationHints) -> bool {
    d.spec_resolver().labels_len() + d.entries_seq().len()
        + prefixed_plan(named_prefixes(d.entries_seq(), d.spec_resolver(), h.prefix_labels.view()),
            d.entries_seq(), d.spec_resolver(), h.standalone_labels.view()).len() < i32::MAX
}

/// What the hints make of `input`: `input` itself when they ask for nothing.
pub open spec fn hints_result(d: Dictionary, input: Dictionary, h: SegmentationHints) -> bool {
    if asks_changes(h) { hints_applied(d, input, h) } else { d == input }
}

/// How many entries the named prefixes form with the entries, when that is
/// below `limit`.
fn prefixed_count_below(entries: &[DictionaryEntry], r0: &IdResolver, hints: &SegmentationHints, limit: usize) -> (r: Option<usize>)
    requires
        r0.wf(),
        hints.prefix_labels.wf(),
    ensures
        ({
            let ev = entries_view(entries@);
            let n = prefixed_plan(named_prefixes(ev, *r0, hints.prefix_labels.view()), ev, *r0,
                hints.standalone_labels.view()).len();
            match r {
                Some(c) => c == n && c < limit,
                None => n >= limit,
            }
        }),
{
    let ghost ev = entries_view(entries@);
    let ghost st = hints.standalone_labels.view();
    let prefixes = named_prefix_entries(entries, r0, hints);
    let ghost pv = entries_view(prefixes@);
    if limit == 0 {
        return None;
    }
    let mut count: usize = 0;
    let mut j: usize = 0;
    assert(pv.take(0) =~= Seq::<EntryView>::empty());
    while j < prefixes.len()
        invariant
            j <= prefixes@.len(),
            ev == entries_view(entries@),
            pv == entries_view(prefixes@),
            pv == named_prefixes(ev, *r0, hints.prefix_labels.view()),
            r0.wf(),
            st == hints.standalone_labels.view(),
            count == prefixed_plan(pv.take(j as int), ev, *r0, st).len(),
            count < limit,
        decreases prefixes@.len() - j,
    {
        let prefix = &prefixes[j];
        let ghost p = entry_view(*prefix);
        let ghost done = prefixed_plan(pv.take(j as int), ev, *r0, st);
        proof {
            assert(pv.take(j + 1).drop_last() =~= pv.take(j as int));
            assert(pv.take(j + 1).last() == p);
        }
        let mut i: usize = 0;
        assert(ev.take(0) =~= Seq::<EntryView>::empty());
        while i < entries.len()
            invariant
                i <= entries@.len(),
                j < prefixes@.len(),
                ev == entries_view(entries@),
                pv == entries_view(prefixes@),
                pv == named_prefixes(ev, *r0, hints.prefix_labels.view()),
                p == entry_view(prefixes@[j as int]),
                *prefix == prefixes@[j as int],
                done == prefixed_plan(pv.take(j as int), ev, *r0, st),
                prefixed_plan(pv.take(j + 1), ev, *r0, st) == done + prefixed_for(p, ev, *r0, st),
                r0.wf(),
                st == hints.standalone_labels.view(),
                count == done.len() + prefixed_for(p, ev.take(i as int), *r0, st).len(),
                count < limit,
            decreases entries@.len() - i,
        {
            let base = &entries[i];
            proof {
                assert(ev.take(i + 1).drop_last() =~= ev.take(i as int));
                assert(ev.take(i + 1).last() == entry_view(*base));
            }
            if should_combine_with_prefix(base, prefix, r0) {
                if count + 1 >= limit {
                    proof {
                        assert(combines_with(entry_view(*base), p.orth, *r0));
                        assert(prefixed_for(p, ev.take(i + 1), *r0, st).len() == prefixed_for(p, ev.take(i as int), *r0, st).len() + 1);
                        lemma_prefixed_for_prefix(p, ev, *r0, st, i as int + 1);
                        lemma_prefixed_plan_prefix(pv, ev, *r0, st, j as int + 1);
                    }
                    return None;
                }
                count = count + 1;
            }
            i = i + 1;
        }
        proof {
            assert(ev.take(entries@.len() as int) =~= ev);
        }
        j = j + 1;
    }
    proof {
        assert(pv.take(prefixes@.len() as int) =~= pv);
    }
    Some(count)
}

/// Whether the label ids the hints can add to the dictionary fit in an
/// `i32`, as applying them needs.
pub fn fits_hints(dictionary: &Dictionary, hints: &SegmentationHints) -> (b: bool)
    requires
        dictionary.wf(),
        hints.prefix_labels.wf(),
    ensures
        b == hints_fit(*dictionary, *hints),
{
    let r0 = dictionary.resolver();
    let entries = dictionary.entries();
    let labels = r0.labels_count();
    let max: usize = 0x7fff_ffff;
    if labels >= max || entries.len() >= max - labels {
        return false;
    }
    match prefixed_count_below(entries, r0, hints, max - labels - entries.len()) {
        Some(_) => true,
        None => false,
    }
}

proof fn lemma_planned_concat(a: Seq<EntryView>, b: Seq<EntryView>, pa: Seq<Planned>, pb: Seq<Planned>, m: Map<Seq<char>, i32>)
    requires
        all_planned(a, pa, m),
        all_planned(b, pb, m),
    ensures
        all_planned(a + b, pa + pb, m),
{
    assert forall|k: int| 0 <= k < (a + b).len() implies #[trigger] planned_ok((a + b)[k], (pa + pb)[k], m) by {
        if k < a.len() {
            assert(planned_ok(a[k], pa[k], m));
        } else {
            assert(planned_ok(b[k - a.len()], pb[k - a.len()], m));
        }
    }
}

} // verus!
