//! The laws a built table obeys, each proved for every input the builder
//! accepts: an authored translation is returned as authored, the fallback
//! key's entry fills a locale's gaps, uncovered cells read as the sentinel,
//! locale-bound handles agree with the two-key lookup, and building is
//! deterministic.

use vstd::prelude::*;

use crate::builder::entry_lookup;
use crate::builder::fallback_key;
use crate::builder::find_group;
use crate::builder::has_key;
use crate::builder::has_locale;
use crate::builder::lookup_with_key;
use crate::builder::resolve_cell;
use crate::builder::sentinel;
use crate::builder::table_models;
use crate::builder::EntryModel;
use crate::builder::GroupModel;
use crate::order::lemma_strictly_sorted_same_members;
use crate::table::spec_find_idx;
use crate::table::spec_get_locale;
use crate::table::spec_handle_localize;
use crate::table::spec_localize;
use crate::table::TableModel;

verus! {

/// A found group is one of the authored groups: its key occurs in the input
/// and its entry list is that key's effective entry list.
proof fn lemma_find_group_witness(groups: Seq<GroupModel>, key: Seq<char>)
    requires
        find_group(groups, key) is Some,
    ensures
        exists|i: int|
            0 <= i < groups.len() && (#[trigger] groups[i]).key == key && groups[i].entries
                == find_group(groups, key).unwrap(),
    decreases groups.len(),
{
    if groups.len() > 0 {
        if groups.last().key == key {
            assert(groups[groups.len() - 1].key == key && groups[groups.len() - 1].entries
                == find_group(groups, key).unwrap());
        } else {
            lemma_find_group_witness(groups.drop_last(), key);
            let i = choose|i: int|
                0 <= i < groups.drop_last().len() && (#[trigger] groups.drop_last()[i]).key == key
                    && groups.drop_last()[i].entries == find_group(groups.drop_last(), key).unwrap();
            assert(groups[i] == groups.drop_last()[i]);
        }
    }
}

/// A key some group was authored under is always found.
proof fn lemma_has_key_find_group(groups: Seq<GroupModel>, key: Seq<char>)
    requires
        has_key(groups, key),
    ensures
        find_group(groups, key) is Some,
    decreases groups.len(),
{
    if groups.len() > 0 && groups.last().key != key {
        let i = choose|i: int| 0 <= i < groups.len() && (#[trigger] groups[i]).key == key;
        assert(groups.drop_last()[i] == groups[i]);
        lemma_has_key_find_group(groups.drop_last(), key);
    }
}

/// A found entry is one of the group's entries: its locale occurs in the
/// entry list and its text is the lookup's result.
proof fn lemma_entry_lookup_witness(entries: Seq<EntryModel>, locale: Seq<char>)
    requires
        entry_lookup(entries, locale) is Some,
    ensures
        exists|j: int|
            0 <= j < entries.len() && (#[trigger] entries[j]).locale == locale && entries[j].text
                == entry_lookup(entries, locale).unwrap(),
    decreases entries.len(),
{
    if entries.len() > 0 && entries[0].locale != locale {
        lemma_entry_lookup_witness(entries.drop_first(), locale);
        let j = choose|j: int|
            0 <= j < entries.drop_first().len() && (#[trigger] entries.drop_first()[j]).locale
                == locale && entries.drop_first()[j].text == entry_lookup(
                entries.drop_first(),
                locale,
            ).unwrap();
        assert(entries[j + 1] == entries.drop_first()[j]);
    }
}

/// The locale of any entry of a found group occurs in the authored input.
proof fn lemma_lookup_gives_has_locale(groups: Seq<GroupModel>, key: Seq<char>, locale: Seq<char>)
    requires
        lookup_with_key(groups, key, locale) is Some,
    ensures
        has_locale(groups, locale),
{
    lemma_find_group_witness(groups, key);
    let es = find_group(groups, key).unwrap();
    let i = choose|i: int|
        0 <= i < groups.len() && (#[trigger] groups[i]).key == key && groups[i].entries == es;
    lemma_entry_lookup_witness(es, locale);
    let j = choose|j: int|
        0 <= j < es.len() && (#[trigger] es[j]).locale == locale && es[j].text == entry_lookup(
            es,
            locale,
        ).unwrap();
    assert(0 <= i < groups.len() && 0 <= j < groups[i].entries.len()
        && groups[i].entries[j].locale == locale);
}

/// Both axis positions a (key, locale) pair present in the input resolves to
/// name that pair exactly, so the looked-up cell is the pair's resolved cell.
proof fn lemma_localize_hits_cell(t: TableModel, groups: Seq<GroupModel>, key: Seq<char>, locale: Seq<char>)
    requires
        table_models(t, groups),
        has_key(groups, key),
        has_locale(groups, locale),
    ensures
        spec_localize(t, key, locale) == resolve_cell(groups, key, locale),
{
    assert(t.keys.contains(key));
    assert(t.locales.contains(locale));
    t.keys.index_of_first_ensures(key);
    t.locales.index_of_first_ensures(locale);
    let kj = spec_find_idx(t.keys, key);
    let li = spec_find_idx(t.locales, locale);
    assert(t.keys[kj] == key);
    assert(t.locales[li] == locale);
    assert(t.cells[li][kj] == resolve_cell(groups, t.keys[kj], t.locales[li]));
}

/// Law: for every (key, locale) pair the authored input covers explicitly,
/// the lookup on the built table returns exactly the authored string.
pub proof fn lemma_localize_authored(
    t: TableModel,
    groups: Seq<GroupModel>,
    key: Seq<char>,
    locale: Seq<char>,
    text: Seq<char>,
)
    requires
        table_models(t, groups),
        lookup_with_key(groups, key, locale) == Some(text),
    ensures
        spec_localize(t, key, locale) == text,
{
    lemma_find_group_witness(groups, key);
    lemma_lookup_gives_has_locale(groups, key, locale);
    lemma_localize_hits_cell(t, groups, key, locale);
}

/// Law: for every key the input covers and every locale it gives only a
/// fallback entry for (no explicit entry under that key), the lookup returns
/// the fallback key's translation for that locale.
pub proof fn lemma_localize_fallback(
    t: TableModel,
    groups: Seq<GroupModel>,
    key: Seq<char>,
    locale: Seq<char>,
    text: Seq<char>,
)
    requires
        table_models(t, groups),
        has_key(groups, key),
        lookup_with_key(groups, key, locale) is None,
        lookup_with_key(groups, fallback_key(), locale) == Some(text),
    ensures
        spec_localize(t, key, locale) == text,
{
    lemma_lookup_gives_has_locale(groups, fallback_key(), locale);
    lemma_localize_hits_cell(t, groups, key, locale);
}

/// Law: for every (key, locale) pair on the table's axes that neither the
/// explicit nor the fallback input covers, the lookup returns the sentinel.
pub proof fn lemma_localize_sentinel(
    t: TableModel,
    groups: Seq<GroupModel>,
    key: Seq<char>,
    locale: Seq<char>,
)
    requires
        table_models(t, groups),
        has_key(groups, key),
        has_locale(groups, locale),
        lookup_with_key(groups, key, locale) is None,
        lookup_with_key(groups, fallback_key(), locale) is None,
    ensures
        spec_localize(t, key, locale) == sentinel(),
{
    lemma_localize_hits_cell(t, groups, key, locale);
}

/// Law: looking a key up through a locale-bound handle agrees with the
/// two-key lookup on the table itself, for every key and locale, known or
/// unknown.
pub proof fn lemma_handle_agrees_with_table(t: TableModel, key: Seq<char>, locale: Seq<char>)
    ensures
        spec_handle_localize(spec_get_locale(t, locale), key) == spec_localize(t, key, locale),
{
}

/// Law: building is deterministic. Any two tables built from the same
/// authored input have the same key ordering, the same locale ordering, and
/// the same cell contents.
pub proof fn lemma_build_deterministic(t1: TableModel, t2: TableModel, groups: Seq<GroupModel>)
    requires
        table_models(t1, groups),
        table_models(t2, groups),
    ensures
        t1.keys == t2.keys,
        t1.locales == t2.locales,
        t1.cells == t2.cells,
{
    assert forall|e: Seq<char>| t1.keys.contains(e) <==> t2.keys.contains(e) by {
        assert(t1.keys.contains(e) <==> has_key(groups, e));
        assert(t2.keys.contains(e) <==> has_key(groups, e));
    }
    lemma_strictly_sorted_same_members(t1.keys, t2.keys);
    assert forall|e: Seq<char>| t1.locales.contains(e) <==> t2.locales.contains(e) by {
        assert(t1.locales.contains(e) <==> has_locale(groups, e));
        assert(t2.locales.contains(e) <==> has_locale(groups, e));
    }
    lemma_strictly_sorted_same_members(t1.locales, t2.locales);
    assert forall|i: int| 0 <= i < t1.cells.len() implies t1.cells[i] == t2.cells[i] by {
        assert forall|j: int| 0 <= j < t1.cells[i].len() implies t1.cells[i][j]
            == t2.cells[i][j] by {
            assert(t1.cells[i][j] == resolve_cell(groups, t1.keys[j], t1.locales[i]));
            assert(t2.cells[i][j] == resolve_cell(groups, t2.keys[j], t2.locales[i]));
        }
        assert(t1.cells[i] =~= t2.cells[i]);
    }
    assert(t1.cells =~= t2.cells);
}

} // verus!
