//! The immutable localization table and its two query operations: the full
//! two-key lookup and the single-locale view. Lookups scan the axes by exact
//! string equality; an unknown key or locale resolves to position 0 of its
//! axis, so a query never fails.

use vstd::prelude::*;

use crate::order::strcmp;
use crate::order::strictly_sorted;

verus! {

/// The mathematical content of a vector of strings: the sequence of their
/// character sequences.
pub open spec fn strs(v: Seq<String>) -> Seq<Seq<char>> {
    v.map_values(|s: String| s@)
}

/// What a [`LocalizationTable`] is mathematically: its two axes and its cell
/// matrix, all as character sequences.
pub ghost struct TableModel {
    pub keys: Seq<Seq<char>>,
    pub locales: Seq<Seq<char>>,
    pub cells: Seq<Seq<Seq<char>>>,
}

/// A table of translations based on locale: a key axis, a locale axis, and a
/// dense matrix of translation strings indexed by `[locale][key]`. Built by
/// [`crate::build`]; immutable afterwards.
pub struct LocalizationTable {
    pub translation_keys: Vec<String>,
    pub locales: Vec<String>,
    pub translations: Vec<Vec<String>>,
}

impl View for LocalizationTable {
    type V = TableModel;

    open spec fn view(&self) -> TableModel {
        TableModel {
            keys: strs(self.translation_keys@),
            locales: strs(self.locales@),
            cells: self.translations@.map_values(|row: Vec<String>| strs(row@)),
        }
    }
}

/// The index at which `s` first occurs in `arr`, and 0 when it does not occur
/// at all: the index an unknown name degrades to.
pub open spec fn spec_find_idx(arr: Seq<Seq<char>>, s: Seq<char>) -> int {
    match arr.index_of_first(s) {
        Some(i) => i,
        None => 0,
    }
}

/// What the two-key lookup returns: the cell at the locale's row and the
/// key's column, each axis searched by first match and degrading to 0.
pub open spec fn spec_localize(t: TableModel, key: Seq<char>, locale: Seq<char>) -> Seq<char> {
    t.cells[spec_find_idx(t.locales, locale)][spec_find_idx(t.keys, key)]
}

/// What a [`LocaleHandle`] is mathematically: its locale name, the shared key
/// axis, and the one row of cells it is bound to.
pub ghost struct HandleModel {
    pub locale: Seq<char>,
    pub keys: Seq<Seq<char>>,
    pub row: Seq<Seq<char>>,
}

/// The handle that [`LocalizationTable::get_locale`] returns for a locale
/// name: the axis entry it resolved to, the key axis, and that locale's row.
pub open spec fn spec_get_locale(t: TableModel, locale: Seq<char>) -> HandleModel {
    HandleModel {
        locale: t.locales[spec_find_idx(t.locales, locale)],
        keys: t.keys,
        row: t.cells[spec_find_idx(t.locales, locale)],
    }
}

/// What the single-key lookup on a handle returns: the cell in the bound row
/// at the key's column, degrading to column 0 for an unknown key.
pub open spec fn spec_handle_localize(h: HandleModel, key: Seq<char>) -> Seq<char> {
    h.row[spec_find_idx(h.keys, key)]
}

impl LocalizationTable {
    /// The matrix has exactly one row per locale and one column per key.
    pub open spec fn dims_ok(self) -> bool {
        &&& self@.cells.len() == self@.locales.len()
        &&& forall|i: int|
            0 <= i < self@.cells.len() ==> (#[trigger] self@.cells[i]).len() == self@.keys.len()
    }

    /// The construction invariant: exact dimensions, and both axes strictly
    /// sorted, which makes them duplicate-free and the ordering reproducible.
    pub open spec fn wf(self) -> bool {
        &&& self.dims_ok()
        &&& strictly_sorted(self@.keys)
        &&& strictly_sorted(self@.locales)
    }

    /// Translates a given key to the corresponding localized string for the
    /// specified locale. An unknown key or locale is not an error: the lookup
    /// degrades to position 0 of the respective axis.
    pub fn localize<'a>(&'a self, translation_key: &str, locale: &str) -> (r: &'a str)
        requires
            self.dims_ok(),
            self@.locales.len() > 0,
            self@.keys.len() > 0,
        ensures
            r@ == spec_localize(self@, translation_key@, locale@),
    {
        let li = find_idx(&self.locales, locale);
        let ki = find_idx(&self.translation_keys, translation_key);
        proof {
            assert(li < self.locales@.len());
            assert(self.translations@.len() == self@.cells.len());
            assert(self@.cells[li as int] == strs(self.translations@[li as int]@));
            assert(ki < self@.keys.len());
        }
        self.translations[li][ki].as_str()
    }

    /// Create a handle bound to the row for `locale`, or to row 0 when the
    /// locale is not on the axis.
    pub fn get_locale<'a>(&'a self, locale: &str) -> (h: LocaleHandle<'a>)
        requires
            self.dims_ok(),
            self@.locales.len() > 0,
        ensures
            h@ == spec_get_locale(self@, locale@),
            h@.row.len() == h@.keys.len(),
    {
        let li = find_idx(&self.locales, locale);
        proof {
            assert(li < self.locales@.len());
            assert(self.translations@.len() == self@.cells.len());
            assert(self@.cells[li as int] == strs(self.translations@[li as int]@));
        }
        LocaleHandle {
            locale: &self.locales[li],
            translation_keys: &self.translation_keys,
            translations: &self.translations[li],
        }
    }
}

/// A read-only projection of one row of a table: one locale's translations,
/// paired with the shared key axis. It borrows from the table and owns
/// nothing.
#[derive(Clone, Copy)]
pub struct LocaleHandle<'a> {
    locale: &'a String,
    translation_keys: &'a Vec<String>,
    translations: &'a Vec<String>,
}

impl<'a> View for LocaleHandle<'a> {
    type V = HandleModel;

    closed spec fn view(&self) -> HandleModel {
        HandleModel {
            locale: self.locale@,
            keys: strs(self.translation_keys@),
            row: strs(self.translations@),
        }
    }
}

impl<'a> LocaleHandle<'a> {
    /// Get the translated string for the given translation key in this
    /// locale; an unknown key degrades to column 0.
    pub fn localize(&self, translation_key: &str) -> (r: &'a str)
        requires
            self@.row.len() == self@.keys.len(),
            self@.keys.len() > 0,
        ensures
            r@ == spec_handle_localize(self@, translation_key@),
    {
        let ki = find_idx(self.translation_keys, translation_key);
        proof {
            assert(ki < self.translations@.len());
        }
        self.translations[ki].as_str()
    }

    /// The name of the locale this handle is bound to.
    pub fn locale(&self) -> (r: &'a str)
        ensures
            r@ == self@.locale,
    {
        self.locale.as_str()
    }
}

/// Linear scan of a string axis: the index of the first exact match, or 0
/// when there is none.
pub fn find_idx(arr: &Vec<String>, s: &str) -> (idx: usize)
    ensures
        idx == spec_find_idx(strs(arr@), s@),
        strs(arr@).contains(s@) ==> idx < arr.len() && strs(arr@)[idx as int] == s@,
        !strs(arr@).contains(s@) ==> idx == 0,
{
    let mut i: usize = 0;
    while i < arr.len()
        invariant
            i <= arr.len(),
            forall|k: int| 0 <= k < i ==> strs(arr@)[k] != s@,
        decreases arr.len() - i,
    {
        if strcmp(arr[i].as_str(), s) {
            proof {
                assert(strs(arr@)[i as int] == s@);
                assert(strs(arr@).contains(s@));
                strs(arr@).index_of_first_ensures(s@);
            }
            return i;
        }
        i += 1;
    }
    proof {
        strs(arr@).index_of_first_ensures(s@);
    }
    0
}

} // verus!
