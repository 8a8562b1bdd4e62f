//! The table builder: it validates a sequence of authored key groups (no
//! locale may repeat within one key's group), collects the distinct keys and
//! locales into lexicographically sorted axes, and fills the dense matrix,
//! falling back to the reserved key `"_"` and then to the sentinel string for
//! cells the input does not cover.

use vstd::prelude::*;

use crate::order::lemma_lex_lt_transitive;
use crate::order::lemma_lex_lt_trichotomy;
use crate::order::lex_lt;
use crate::order::str_lt;
use crate::order::strcmp;
use crate::order::strictly_sorted;
use crate::table::strs;
use crate::table::LocalizationTable;

verus! {

/// One authored translation: the string for one locale within one key group.
pub struct TranslationEntry {
    pub locale: String,
    pub text: String,
}

/// What a [`TranslationEntry`] is mathematically.
pub ghost struct EntryModel {
    pub locale: Seq<char>,
    pub text: Seq<char>,
}

impl View for TranslationEntry {
    type V = EntryModel;

    open spec fn view(&self) -> EntryModel {
        EntryModel { locale: self.locale@, text: self.text@ }
    }
}

/// One authored key group: a translation key and its (locale, string) pairs.
pub struct KeyGroup {
    pub key: String,
    pub entries: Vec<TranslationEntry>,
}

/// What a [`KeyGroup`] is mathematically.
pub ghost struct GroupModel {
    pub key: Seq<char>,
    pub entries: Seq<EntryModel>,
}

impl View for KeyGroup {
    type V = GroupModel;

    open spec fn view(&self) -> GroupModel {
        GroupModel { key: self.key@, entries: self.entries@.map_values(|e: TranslationEntry| e@) }
    }
}

/// The mathematical content of a vector of key groups.
pub open spec fn groups_model(gs: Seq<KeyGroup>) -> Seq<GroupModel> {
    gs.map_values(|g: KeyGroup| g@)
}

/// The one failure a build can report: the same locale appeared twice within
/// one key's group. The whole build fails; no partial table is produced.
pub enum BuildError {
    DuplicateLocale { key: String, locale: String },
}

/// The reserved fallback key. Its per-locale entries fill the cells of keys
/// that lack an explicit translation for a locale.
pub open spec fn fallback_key() -> Seq<char> {
    "_"@
}

/// The sentinel string placed in a cell that neither the explicit nor the
/// fallback input covers. A missing translation is an observable value, not
/// an error.
pub open spec fn sentinel() -> Seq<char> {
    "<NO TRANSLATION>"@
}

/// The text of the first entry for `locale` in a group's entry list, if any.
pub open spec fn entry_lookup(entries: Seq<EntryModel>, locale: Seq<char>) -> Option<Seq<char>>
    decreases entries.len(),
{
    if entries.len() == 0 {
        None
    } else if entries[0].locale == locale {
        Some(entries[0].text)
    } else {
        entry_lookup(entries.drop_first(), locale)
    }
}

/// The entry list of the last group authored under `key`, if any: a later
/// group under the same key replaces an earlier one wholesale.
pub open spec fn find_group(groups: Seq<GroupModel>, key: Seq<char>) -> Option<Seq<EntryModel>>
    decreases groups.len(),
{
    if groups.len() == 0 {
        None
    } else if groups.last().key == key {
        Some(groups.last().entries)
    } else {
        find_group(groups.drop_last(), key)
    }
}

/// The authored translation for (`key`, `locale`): the text that `key`'s
/// effective group gives for `locale`, if both exist.
pub open spec fn lookup_with_key(
    groups: Seq<GroupModel>,
    key: Seq<char>,
    locale: Seq<char>,
) -> Option<Seq<char>> {
    match find_group(groups, key) {
        Some(entries) => entry_lookup(entries, locale),
        None => None,
    }
}

/// What the builder writes into the cell for (`key`, `locale`): the explicit
/// translation, else the fallback key's translation for that locale, else the
/// sentinel.
pub open spec fn resolve_cell(
    groups: Seq<GroupModel>,
    key: Seq<char>,
    locale: Seq<char>,
) -> Seq<char> {
    match lookup_with_key(groups, key, locale) {
        Some(text) => text,
        None => match lookup_with_key(groups, fallback_key(), locale) {
            Some(text) => text,
            None => sentinel(),
        },
    }
}

/// Some group was authored under `key`.
pub open spec fn has_key(groups: Seq<GroupModel>, key: Seq<char>) -> bool {
    exists|i: int| 0 <= i < groups.len() && groups[i].key == key
}

/// Some group holds an entry for `locale`.
pub open spec fn has_locale(groups: Seq<GroupModel>, locale: Seq<char>) -> bool {
    exists|i: int, j: int|
        0 <= i < groups.len() && 0 <= j < groups[i].entries.len() && groups[i].entries[j].locale
            == locale
}

/// No locale repeats within this entry list.
pub open spec fn no_dup_entries(entries: Seq<EntryModel>) -> bool {
    forall|i: int, j: int|
        0 <= i < j < entries.len() ==> (#[trigger] entries[i].locale) != (
        #[trigger] entries[j].locale)
}

/// Some group repeats a locale: the input is invalid.
pub open spec fn has_dup(groups: Seq<GroupModel>) -> bool {
    exists|i: int| 0 <= i < groups.len() && !no_dup_entries(#[trigger] groups[i].entries)
}

/// The locale of the first repeated entry in this entry list at or after
/// position `j`, scanning in authored order.
pub open spec fn first_dup_locale_from(entries: Seq<EntryModel>, j: int) -> Option<Seq<char>>
    decreases entries.len() - j,
{
    if j >= entries.len() {
        None
    } else if exists|i: int| 0 <= i < j && entries[i].locale == entries[j].locale {
        Some(entries[j].locale)
    } else {
        first_dup_locale_from(entries, j + 1)
    }
}

/// The (key, locale) the builder reports for invalid input: the first
/// repeated locale of the first offending group at or after position `g`, in
/// authored order.
pub open spec fn first_dup(groups: Seq<GroupModel>, g: int) -> Option<(Seq<char>, Seq<char>)>
    decreases groups.len() - g,
{
    if g >= groups.len() {
        None
    } else {
        match first_dup_locale_from(groups[g].entries, 0) {
            Some(locale) => Some((groups[g].key, locale)),
            None => first_dup(groups, g + 1),
        }
    }
}

/// The table a successful build must deliver: strictly sorted axes holding
/// exactly the authored keys and locales, and every cell resolved from the
/// input by the explicit / fallback / sentinel rule.
pub open spec fn table_models(t: crate::table::TableModel, groups: Seq<GroupModel>) -> bool {
    &&& strictly_sorted(t.keys)
    &&& strictly_sorted(t.locales)
    &&& (forall|k: Seq<char>| t.keys.contains(k) <==> has_key(groups, k))
    &&& (forall|l: Seq<char>| t.locales.contains(l) <==> has_locale(groups, l))
    &&& t.cells.len() == t.locales.len()
    &&& (forall|i: int| 0 <= i < t.cells.len() ==> (#[trigger] t.cells[i]).len() == t.keys.len())
    &&& (forall|i: int, j: int|
        0 <= i < t.locales.len() && 0 <= j < t.keys.len() ==> #[trigger] t.cells[i][j]
            == resolve_cell(groups, t.keys[j], t.locales[i]))
}

/// Locales a group's first `j` entries never repeat, so the scan for the
/// first repeated locale can start at position `j` instead of 0.
proof fn lemma_fdlf_clean_prefix(entries: Seq<EntryModel>, j: int)
    requires
        0 <= j <= entries.len(),
        forall|i2: int, j2: int|
            0 <= i2 < j2 < j ==> (#[trigger] entries[i2].locale) != (#[trigger] entries[j2].locale),
    ensures
        first_dup_locale_from(entries, 0) == first_dup_locale_from(entries, j),
    decreases j,
{
    if j > 0 {
        lemma_fdlf_clean_prefix(entries, j - 1);
        assert(!(exists|i: int|
            0 <= i < j - 1 && (#[trigger] entries[i].locale) == entries[j - 1].locale));
    }
}

/// A group whose locales never repeat yields no first repeated locale.
proof fn lemma_no_dup_fdlf_none(entries: Seq<EntryModel>)
    requires
        no_dup_entries(entries),
    ensures
        first_dup_locale_from(entries, 0) is None,
{
    lemma_fdlf_clean_prefix(entries, entries.len() as int);
}

/// The first `g` groups are clean, so the scan for the first offending group
/// can start at position `g` instead of 0.
proof fn lemma_fd_clean_prefix(groups: Seq<GroupModel>, g: int)
    requires
        0 <= g <= groups.len(),
        forall|gi: int|
            0 <= gi < g ==> first_dup_locale_from(#[trigger] groups[gi].entries, 0) is None,
    ensures
        first_dup(groups, 0) == first_dup(groups, g),
    decreases g,
{
    if g > 0 {
        lemma_fd_clean_prefix(groups, g - 1);
    }
}

/// A locale occurs in the first `g` groups' entries.
spec fn has_locale_upto(groups: Seq<GroupModel>, g: int, locale: Seq<char>) -> bool {
    exists|i: int, j: int|
        0 <= i < g && 0 <= j < groups[i].entries.len() && groups[i].entries[j].locale == locale
}

/// Transform a raw collection of authored key groups into a validated,
/// normalized table: both axes lexicographically sorted and duplicate-free,
/// every cell filled by the explicit / fallback / sentinel rule. The one
/// failure mode is a locale repeated within one key's group, reported with
/// the offending key and locale; no partial table is produced.
pub fn build(groups: &Vec<KeyGroup>) -> (r: Result<LocalizationTable, BuildError>)
    ensures
        match r {
            Ok(t) => {
                &&& !has_dup(groups_model(groups@))
                &&& t.wf()
                &&& table_models(t@, groups_model(groups@))
            },
            Err(e) => {
                &&& has_dup(groups_model(groups@))
                &&& match e {
                    BuildError::DuplicateLocale { key, locale } => first_dup(
                        groups_model(groups@),
                        0,
                    ) == Some((key@, locale@)),
                }
            },
        },
{
    let ghost m = groups_model(groups@);
    // Validation: within a single key's group, no locale may repeat.
    let mut g: usize = 0;
    while g < groups.len()
        invariant
            g <= groups.len(),
            m == groups_model(groups@),
            forall|gi: int| 0 <= gi < g ==> no_dup_entries((#[trigger] m[gi]).entries),
        decreases groups.len() - g,
    {
        let entries = &groups[g].entries;
        let ghost em = m[g as int].entries;
        proof {
            assert(em == entries@.map_values(|e: TranslationEntry| e@));
        }
        let mut j: usize = 0;
        while j < entries.len()
            invariant
                g < groups.len(),
                j <= entries.len(),
                m == groups_model(groups@),
                em == m[g as int].entries,
                em == entries@.map_values(|e: TranslationEntry| e@),
                forall|gi: int| 0 <= gi < g ==> no_dup_entries((#[trigger] m[gi]).entries),
                forall|i2: int, j2: int|
                    0 <= i2 < j2 < j ==> (#[trigger] em[i2].locale) != (#[trigger] em[j2].locale),
            decreases entries.len() - j,
        {
            let mut i: usize = 0;
            while i < j
                invariant
                    g < groups.len(),
                    i <= j < entries.len(),
                    m == groups_model(groups@),
                    em == m[g as int].entries,
                    em == entries@.map_values(|e: TranslationEntry| e@),
                    forall|gi: int| 0 <= gi < g ==> no_dup_entries((#[trigger] m[gi]).entries),
                    forall|i2: int, j2: int|
                        0 <= i2 < j2 < j ==> (#[trigger] em[i2].locale) != (
                        #[trigger] em[j2].locale),
                    forall|i2: int| 0 <= i2 < i ==> em[i2].locale != em[j as int].locale,
                decreases j - i,
            {
                if strcmp(entries[i].locale.as_str(), entries[j].locale.as_str()) {
                    proof {
                        assert(em[i as int].locale == em[j as int].locale);
                        assert(!no_dup_entries(em));
                        lemma_fdlf_clean_prefix(em, j as int);
                        assert(first_dup_locale_from(em, j as int) == Some(em[j as int].locale));
                        assert forall|gi: int|
                            0 <= gi < g implies first_dup_locale_from(
                            (#[trigger] m[gi]).entries,
                            0,
                        ) is None by {
                            lemma_no_dup_fdlf_none(m[gi].entries);
                        }
                        lemma_fd_clean_prefix(m, g as int);
                    }
                    return Err(
                        BuildError::DuplicateLocale {
                            key: groups[g].key.clone(),
                            locale: entries[j].locale.clone(),
                        },
                    );
                }
                i += 1;
            }
            j += 1;
        }
        g += 1;
    }
    // The key axis: the distinct keys across all groups, sorted.
    let mut key_vec: Vec<String> = Vec::new();
    let mut g: usize = 0;
    while g < groups.len()
        invariant
            g <= groups.len(),
            m == groups_model(groups@),
            strictly_sorted(strs(key_vec@)),
            forall|x: Seq<char>|
                strs(key_vec@).contains(x) <==> exists|gi: int|
                    0 <= gi < g && (#[trigger] m[gi]).key == x,
        decreases groups.len() - g,
    {
        let ghost before = strs(key_vec@);
        insert_unique_sorted(&mut key_vec, &groups[g].key);
        proof {
            assert(m[g as int].key == groups@[g as int].key@);
            assert forall|x: Seq<char>| strs(key_vec@).contains(x) implies exists|gi: int|
                0 <= gi < g + 1 && (#[trigger] m[gi]).key == x by {
                if before.contains(x) {
                    let gi = choose|gi: int| 0 <= gi < g && (#[trigger] m[gi]).key == x;
                    assert(0 <= gi < g + 1 && m[gi].key == x);
                } else {
                    assert(m[g as int].key == x);
                }
            }
            assert forall|x: Seq<char>|
                (exists|gi: int| 0 <= gi < g + 1 && (#[trigger] m[gi]).key == x) implies strs(
                key_vec@,
            ).contains(x) by {
                let gi = choose|gi: int| 0 <= gi < g + 1 && (#[trigger] m[gi]).key == x;
                if gi < g {
                    assert(before.contains(x));
                }
            }
        }
        g += 1;
    }
    // The locale axis: the distinct locales across all groups, sorted.
    let mut locale_vec: Vec<String> = Vec::new();
    let mut g: usize = 0;
    while g < groups.len()
        invariant
            g <= groups.len(),
            m == groups_model(groups@),
            strictly_sorted(strs(locale_vec@)),
            forall|x: Seq<char>| strs(locale_vec@).contains(x) <==> has_locale_upto(m, g as int, x),
        decreases groups.len() - g,
    {
        let entries = &groups[g].entries;
        let ghost em = m[g as int].entries;
        proof {
            assert(em == entries@.map_values(|e: TranslationEntry| e@));
        }
        let mut j: usize = 0;
        while j < entries.len()
            invariant
                g < groups.len(),
                j <= entries.len(),
                m == groups_model(groups@),
                em == m[g as int].entries,
                em == entries@.map_values(|e: TranslationEntry| e@),
                strictly_sorted(strs(locale_vec@)),
                forall|x: Seq<char>|
                    strs(locale_vec@).contains(x) <==> (has_locale_upto(m, g as int, x) || exists|
                        ej: int,
                    | 0 <= ej < j && (#[trigger] em[ej]).locale == x),
            decreases entries.len() - j,
        {
            let ghost before = strs(locale_vec@);
            insert_unique_sorted(&mut locale_vec, &entries[j].locale);
            proof {
                assert(em[j as int].locale == entries@[j as int].locale@);
                assert forall|x: Seq<char>| strs(locale_vec@).contains(x) implies (has_locale_upto(
                    m,
                    g as int,
                    x,
                ) || exists|ej: int| 0 <= ej < j + 1 && (#[trigger] em[ej]).locale == x) by {
                    if before.contains(x) {
                        if exists|ej: int| 0 <= ej < j && (#[trigger] em[ej]).locale == x {
                            let ej = choose|ej: int| 0 <= ej < j && (#[trigger] em[ej]).locale
                                == x;
                            assert(0 <= ej < j + 1 && em[ej].locale == x);
                        }
                    } else {
                        assert(em[j as int].locale == x);
                    }
                }
                assert forall|x: Seq<char>|
                    (has_locale_upto(m, g as int, x) || exists|ej: int|
                        0 <= ej < j + 1 && (#[trigger] em[ej]).locale == x) implies strs(
                    locale_vec@,
                ).contains(x) by {
                    if has_locale_upto(m, g as int, x) {
                        assert(before.contains(x));
                    } else {
                        let ej = choose|ej: int| 0 <= ej < j + 1 && (#[trigger] em[ej]).locale
                            == x;
                        if ej < j {
                            assert(before.contains(x));
                        }
                    }
                }
            }
            j += 1;
        }
        proof {
            assert forall|x: Seq<char>| strs(locale_vec@).contains(x) implies has_locale_upto(
                m,
                g as int + 1,
                x,
            ) by {
                if has_locale_upto(m, g as int, x) {
                    let (gi, ej): (int, int) = choose|gi: int, ej: int|
                        0 <= gi < g && 0 <= ej < m[gi].entries.len() && m[gi].entries[ej].locale
                            == x;
                    assert(0 <= gi < g + 1 && 0 <= ej < m[gi].entries.len()
                        && m[gi].entries[ej].locale == x);
                } else {
                    let ej = choose|ej: int|
                        0 <= ej < entries@.len() && (#[trigger] em[ej]).locale == x;
                    assert(0 <= ej < m[g as int].entries.len() && m[g as int].entries[ej].locale
                        == x);
                }
            }
            assert forall|x: Seq<char>| has_locale_upto(m, g as int + 1, x) implies strs(
                locale_vec@,
            ).contains(x) by {
                let (gi, ej): (int, int) = choose|gi: int, ej: int|
                    0 <= gi < g + 1 && 0 <= ej < m[gi].entries.len() && m[gi].entries[ej].locale
                        == x;
                if gi < g {
                    assert(has_locale_upto(m, g as int, x));
                } else {
                    assert(em[ej].locale == x);
                }
            }
        }
        g += 1;
    }
    // The matrix: one row per locale, one cell per key, each resolved from
    // the input.
    let mut cells: Vec<Vec<String>> = Vec::new();
    let mut li: usize = 0;
    while li < locale_vec.len()
        invariant
            li <= locale_vec.len(),
            m == groups_model(groups@),
            cells@.len() == li as int,
            forall|a: int| 0 <= a < li ==> strs((#[trigger] cells@[a])@).len() == key_vec@.len(),
            forall|a: int, b: int|
                0 <= a < li && 0 <= b < key_vec@.len() ==> strs(cells@[a]@)[b] == resolve_cell(
                    m,
                    strs(key_vec@)[b],
                    strs(locale_vec@)[a],
                ),
        decreases locale_vec.len() - li,
    {
        let mut row: Vec<String> = Vec::new();
        let mut kj: usize = 0;
        while kj < key_vec.len()
            invariant
                li < locale_vec.len(),
                kj <= key_vec.len(),
                m == groups_model(groups@),
                row@.len() == kj as int,
                forall|b: int|
                    0 <= b < kj ==> (#[trigger] row@[b])@ == resolve_cell(
                        m,
                        strs(key_vec@)[b],
                        strs(locale_vec@)[li as int],
                    ),
            decreases key_vec.len() - kj,
        {
            let cell = resolve_cell_exec(groups, &key_vec[kj], &locale_vec[li]);
            row.push(cell);
            kj += 1;
        }
        cells.push(row);
        li += 1;
    }
    let table = LocalizationTable {
        translation_keys: key_vec,
        locales: locale_vec,
        translations: cells,
    };
    proof {
        assert(m.len() == groups@.len());
        assert(table@.keys == strs(key_vec@));
        assert(table@.locales == strs(locale_vec@));
        assert(forall|x: Seq<char>| table@.keys.contains(x) <==> has_key(m, x));
        assert forall|x: Seq<char>| table@.locales.contains(x) <==> has_locale(m, x) by {
            if table@.locales.contains(x) {
                assert(has_locale_upto(m, groups@.len() as int, x));
                let (gi, ej): (int, int) = choose|gi: int, ej: int|
                    0 <= gi < groups@.len() && 0 <= ej < m[gi].entries.len()
                        && m[gi].entries[ej].locale == x;
                assert(0 <= gi < m.len() && 0 <= ej < m[gi].entries.len()
                    && m[gi].entries[ej].locale == x);
            }
            if has_locale(m, x) {
                let (gi, ej): (int, int) = choose|gi: int, ej: int|
                    0 <= gi < m.len() && 0 <= ej < m[gi].entries.len() && m[gi].entries[ej].locale
                        == x;
                assert(0 <= gi < groups@.len() && 0 <= ej < m[gi].entries.len()
                    && m[gi].entries[ej].locale == x);
                assert(has_locale_upto(m, groups@.len() as int, x));
            }
        }
        assert(table@.cells.len() == cells@.len());
        assert(forall|i: int|
            0 <= i < cells@.len() ==> table@.cells[i] == strs((#[trigger] cells@[i])@));
        assert(forall|i: int|
            0 <= i < table@.cells.len() ==> (#[trigger] table@.cells[i]).len()
                == table@.keys.len());
        assert forall|i: int, j: int|
            0 <= i < table@.locales.len() && 0 <= j < table@.keys.len() implies #[trigger] table@
            .cells[i][j] == resolve_cell(m, table@.keys[j], table@.locales[i]) by {
            assert(table@.cells[i] == strs(cells@[i]@));
            assert(strs(cells@[i]@)[j] == resolve_cell(m, strs(key_vec@)[j], strs(locale_vec@)[i]));
        }
        assert(table_models(table@, m));
    }
    Ok(table)
}

/// Insert `s` into the strictly sorted vector `v` at its ordered position;
/// a string already present is left alone, so `v` stays duplicate-free.
fn insert_unique_sorted(v: &mut Vec<String>, s: &String)
    requires
        strictly_sorted(strs(old(v)@)),
    ensures
        strictly_sorted(strs(final(v)@)),
        forall|x: Seq<char>|
            strs(final(v)@).contains(x) <==> (strs(old(v)@).contains(x) || x == s@),
{
    let mut i: usize = 0;
    while i < v.len() && str_lt(v[i].as_str(), s.as_str())
        invariant
            i <= v.len(),
            v@ == old(v)@,
            forall|k: int| 0 <= k < i ==> lex_lt(strs(v@)[k], s@),
        decreases v.len() - i,
    {
        proof {
            assert(strs(v@)[i as int] == v@[i as int]@);
        }
        i += 1;
    }
    if i < v.len() && strcmp(v[i].as_str(), s.as_str()) {
        proof {
            assert(strs(v@)[i as int] == s@);
            assert(strs(v@).contains(s@));
        }
        return;
    }
    proof {
        if i < v.len() {
            assert(!lex_lt(strs(v@)[i as int], s@));
            assert(strs(v@)[i as int] != s@);
            lemma_lex_lt_trichotomy(s@, strs(v@)[i as int]);
            assert(lex_lt(s@, strs(v@)[i as int]));
        }
    }
    let ghost os = strs(v@);
    let ghost ov = v@;
    let ghost pos = i as int;
    v.insert(i, s.clone());
    proof {
        os.insert_ensures(pos, s@);
        ov.insert_ensures(pos, v@[pos]);
        assert(strs(v@) =~= os.insert(pos, s@)) by {
            assert(forall|k: int| 0 <= k < v@.len() ==> strs(v@)[k] == (#[trigger] v@[k])@);
            assert(forall|k: int| 0 <= k < ov.len() ==> os[k] == (#[trigger] ov[k])@);
        }
        let ns = strs(v@);
        assert forall|a: int, b: int| 0 <= a < b < ns.len() implies lex_lt(ns[a], ns[b]) by {
            if a < pos && b < pos {
            } else if a < pos && b == pos {
            } else if a < pos && b > pos {
                assert(ns[a] == os[a]);
                assert(ns[b] == os[b - 1]);
                if a == b - 1 {
                    lemma_lex_lt_transitive(os[a], s@, os[b - 1]);
                } else {
                }
            } else if a == pos {
                assert(ns[b] == os[b - 1]);
                if b - 1 > pos {
                    lemma_lex_lt_transitive(s@, os[pos], os[b - 1]);
                }
            } else {
            }
        }
        assert forall|x: Seq<char>| ns.contains(x) implies (os.contains(x) || x == s@) by {
            let k = choose|k: int| 0 <= k < ns.len() && ns[k] == x;
            if k < pos {
                assert(os[k] == x);
            } else if k > pos {
                assert(os[k - 1] == x);
            }
        }
        assert forall|x: Seq<char>| (os.contains(x) || x == s@) implies ns.contains(x) by {
            if x == s@ {
                assert(ns[pos] == x);
            } else {
                let k = choose|k: int| 0 <= k < os.len() && os[k] == x;
                if k < pos {
                    assert(ns[k] == x);
                } else {
                    assert(ns[k + 1] == x);
                }
            }
        }
    }
}

/// Scan the groups from the back for the last one authored under `key`.
fn find_group_exec<'a>(groups: &'a Vec<KeyGroup>, key: &str) -> (r: Option<
    &'a Vec<TranslationEntry>,
>)
    ensures
        match r {
            Some(es) => find_group(groups_model(groups@), key@) == Some(
                es@.map_values(|e: TranslationEntry| e@),
            ),
            None => find_group(groups_model(groups@), key@) is None,
        },
{
    let ghost m = groups_model(groups@);
    proof {
        assert(m.subrange(0, m.len() as int) =~= m);
    }
    let mut i: usize = groups.len();
    while i > 0
        invariant
            i <= groups.len(),
            m == groups_model(groups@),
            find_group(m, key@) == find_group(m.subrange(0, i as int), key@),
        decreases i,
    {
        let gi = i - 1;
        if strcmp(groups[gi].key.as_str(), key) {
            proof {
                let pre = m.subrange(0, i as int);
                assert(pre.last() == m[gi as int]);
                assert(m[gi as int].key == key@);
            }
            return Some(&groups[gi].entries);
        }
        proof {
            let pre = m.subrange(0, i as int);
            assert(pre.last() == m[gi as int]);
            assert(pre.drop_last() =~= m.subrange(0, gi as int));
        }
        i = gi;
    }
    None
}

/// Scan an entry list from the front for the first entry for `locale`.
fn entry_lookup_exec<'a>(entries: &'a Vec<TranslationEntry>, locale: &str) -> (r: Option<
    &'a String,
>)
    ensures
        match r {
            Some(text) => entry_lookup(entries@.map_values(|e: TranslationEntry| e@), locale@)
                == Some(text@),
            None => entry_lookup(entries@.map_values(|e: TranslationEntry| e@), locale@) is None,
        },
{
    let ghost m = entries@.map_values(|e: TranslationEntry| e@);
    proof {
        assert(m.skip(0) =~= m);
    }
    let mut j: usize = 0;
    while j < entries.len()
        invariant
            j <= entries.len(),
            m == entries@.map_values(|e: TranslationEntry| e@),
            entry_lookup(m, locale@) == entry_lookup(m.skip(j as int), locale@),
        decreases entries.len() - j,
    {
        proof {
            assert(m.skip(j as int)[0] == m[j as int]);
        }
        if strcmp(entries[j].locale.as_str(), locale) {
            return Some(&entries[j].text);
        }
        proof {
            assert(m.skip(j as int).drop_first() =~= m.skip(j as int + 1));
        }
        j += 1;
    }
    None
}

/// Compute one cell of the matrix: the explicit translation for
/// (`key`, `locale`), else the fallback key's translation for `locale`, else
/// the sentinel string.
fn resolve_cell_exec(groups: &Vec<KeyGroup>, key: &String, locale: &String) -> (r: String)
    ensures
        r@ == resolve_cell(groups_model(groups@), key@, locale@),
{
    match find_group_exec(groups, key.as_str()) {
        Some(es) => match entry_lookup_exec(es, locale.as_str()) {
            Some(text) => {
                return text.clone();
            },
            None => {},
        },
        None => {},
    }
    match find_group_exec(groups, "_") {
        Some(es) => match entry_lookup_exec(es, locale.as_str()) {
            Some(text) => {
                return text.clone();
            },
            None => {},
        },
        None => {},
    }
    String::from_str("<NO TRANSLATION>")
}

} // verus!
