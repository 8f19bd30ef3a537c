//! Appearance preferences resolved against the installed themes and fonts,
//! and the preview state shared by the theme and typography pages.
use vstd::prelude::*;

use vstd::string::StrSliceExecFns;

use crate::repository::{lowercase_text, lowercased_text};
use crate::store::{
    AppearanceMode, AppearancePreferences, default_dark_theme, default_dark_theme_name,
    default_font_family, default_font_family_name, default_light_theme, default_light_theme_name,
    font_size_presets,
};

verus! {

/// Whether a theme is a light or a dark one.
#[derive(Clone, Copy, Debug, PartialEq, Eq, Structural, Hash)]
pub enum ThemeMode {
    Light,
    Dark,
}

/// One installed theme: its name and mode.
#[derive(Clone, Debug)]
pub struct ThemeEntry {
    pub name: String,
    pub mode: ThemeMode,
}

/// Which themes a theme browser lists.
#[derive(Clone, Copy, Debug, PartialEq, Eq, Structural, Hash)]
pub enum ThemeFilter {
    All,
    Light,
    Dark,
}

impl ThemeFilter {
    /// Whether a theme of `mode` passes the filter.
    pub fn matches(self, mode: ThemeMode) -> (passes: bool)
        ensures
            passes == (self == ThemeFilter::All || (self == ThemeFilter::Light && mode
                == ThemeMode::Light) || (self == ThemeFilter::Dark && mode == ThemeMode::Dark)),
    {
        match self {
            ThemeFilter::All => true,
            ThemeFilter::Light => mode == ThemeMode::Light,
            ThemeFilter::Dark => mode == ThemeMode::Dark,
        }
    }
}

/// Whether a font size is one of the supported presets.
pub open spec fn is_font_size_preset(size: u16) -> bool {
    font_size_presets().contains(size)
}

/// A supported font size is kept; any other falls back to sixteen pixels.
pub fn resolved_font_size(preferred: u16) -> (size: u16)
    ensures
        size == if is_font_size_preset(preferred) {
            preferred
        } else {
            16u16
        },
{
    let sizes = AppearancePreferences::font_sizes();
    let mut i: usize = 0;
    while i < sizes.len()
        invariant
            sizes@ == font_size_presets(),
            i <= sizes.len(),
            forall|k: int| 0 <= k < i ==> sizes@[k] != preferred,
        decreases sizes.len() - i,
    {
        if sizes[i] == preferred {
            proof {
                assert(font_size_presets()[i as int] == preferred);
            }
            return preferred;
        }
        i += 1;
    }
    proof {
        if font_size_presets().contains(preferred) {
            let k = choose|k: int| 0 <= k < font_size_presets().len() && font_size_presets()[k] == preferred;
            assert(sizes@[k] == preferred);
        }
    }
    16
}

/// Whether the catalog holds a theme named `name` of mode `mode`.
pub open spec fn catalog_has(catalog: Seq<ThemeEntry>, name: Seq<char>, mode: ThemeMode) -> bool {
    exists|i: int| 0 <= i < catalog.len() && (#[trigger] catalog[i]).name@ == name && catalog[i].mode == mode
}

/// The name of the default theme of a mode.
pub open spec fn default_theme_name(mode: ThemeMode) -> Seq<char> {
    match mode {
        ThemeMode::Light => default_light_theme_name(),
        ThemeMode::Dark => default_dark_theme_name(),
    }
}

/// The theme to use for `mode`: the preferred one when the catalog holds it
/// with that mode, otherwise the mode's default theme.
pub open spec fn resolved_theme_spec(
    catalog: Seq<ThemeEntry>,
    preferred: Seq<char>,
    mode: ThemeMode,
) -> Seq<char> {
    if catalog_has(catalog, preferred, mode) {
        preferred
    } else {
        default_theme_name(mode)
    }
}

/// Normalizing twice gives what normalizing once gives: a resolved theme,
/// font family or font size resolves to itself.
pub proof fn lemma_normalize_is_stable(
    catalog: Seq<ThemeEntry>,
    fonts: Seq<String>,
    theme: Seq<char>,
    mode: ThemeMode,
    family: Seq<char>,
    size: u16,
)
    ensures
        resolved_theme_spec(catalog, resolved_theme_spec(catalog, theme, mode), mode)
            == resolved_theme_spec(catalog, theme, mode),
        resolved_font_spec(fonts, resolved_font_spec(fonts, family)) == resolved_font_spec(
            fonts,
            family,
        ),
        is_font_size_preset(
            if is_font_size_preset(size) {
                size
            } else {
                16u16
            },
        ),
{
    assert(font_size_presets()[1] == 16u16);
}

/// Resolves a preferred theme name against the installed catalog.
pub fn resolved_theme_name(preferred: &String, mode: ThemeMode, catalog: &[ThemeEntry]) -> (name:
    String)
    ensures
        name@ == resolved_theme_spec(catalog@, preferred@, mode),
{
    let mut i: usize = 0;
    while i < catalog.len()
        invariant
            i <= catalog.len(),
            forall|k: int|
                0 <= k < i ==> !((#[trigger] catalog@[k]).name@ == preferred@ && catalog@[k].mode
                    == mode),
        decreases catalog.len() - i,
    {
        if catalog[i].mode == mode && catalog[i].name == *preferred {
            return preferred.clone();
        }
        i += 1;
    }
    match mode {
        ThemeMode::Light => default_light_theme(),
        ThemeMode::Dark => default_dark_theme(),
    }
}

/// The font to use: the preferred one when it is the system font or
/// installed, otherwise the system font.
pub open spec fn resolved_font_spec(fonts: Seq<String>, preferred: Seq<char>) -> Seq<char> {
    if preferred == default_font_family_name() || exists|i: int|
        0 <= i < fonts.len() && (#[trigger] fonts[i])@ == preferred {
        preferred
    } else {
        default_font_family_name()
    }
}

/// Resolves a preferred font family against the installed fonts.
pub fn resolved_font_family(preferred: &String, fonts: &[String]) -> (name: String)
    ensures
        name@ == resolved_font_spec(fonts@, preferred@),
{
    let system = default_font_family();
    if *preferred == system {
        return preferred.clone();
    }
    let mut i: usize = 0;
    while i < fonts.len()
        invariant
            i <= fonts.len(),
            forall|k: int| 0 <= k < i ==> (#[trigger] fonts@[k])@ != preferred@,
        decreases fonts.len() - i,
    {
        if fonts[i] == *preferred {
            return preferred.clone();
        }
        i += 1;
    }
    system
}

/// Replaces every appearance value that the installed themes and fonts
/// cannot honour.
pub fn normalize(
    preferences: &AppearancePreferences,
    catalog: &[ThemeEntry],
    fonts: &[String],
) -> (normalized: AppearancePreferences)
    ensures
        normalized.mode == preferences.mode,
        normalized.light_theme@ == resolved_theme_spec(
            catalog@,
            preferences.light_theme@,
            ThemeMode::Light,
        ),
        normalized.dark_theme@ == resolved_theme_spec(
            catalog@,
            preferences.dark_theme@,
            ThemeMode::Dark,
        ),
        normalized.font_family@ == resolved_font_spec(fonts@, preferences.font_family@),
        normalized.font_size == if is_font_size_preset(preferences.font_size) {
            preferences.font_size
        } else {
            16u16
        },
{
    AppearancePreferences {
        mode: preferences.mode,
        light_theme: resolved_theme_name(&preferences.light_theme, ThemeMode::Light, catalog),
        dark_theme: resolved_theme_name(&preferences.dark_theme, ThemeMode::Dark, catalog),
        font_family: resolved_font_family(&preferences.font_family, fonts),
        font_size: resolved_font_size(preferences.font_size),
    }
}

/// The appearance mode that shows a theme of `mode`.
pub open spec fn mode_for_theme(mode: ThemeMode) -> AppearanceMode {
    match mode {
        ThemeMode::Light => AppearanceMode::Light,
        ThemeMode::Dark => AppearanceMode::Dark,
    }
}

/// A change a page asks for: a theme for one mode, a font family, a font
/// size, or an appearance mode.
#[derive(Clone, Debug)]
pub enum AppearanceChange {
    Theme { name: String, mode: ThemeMode },
    FontFamily(String),
    FontSize(u16),
    Mode(AppearanceMode),
}

/// The preferences `base` with `change` applied. Previewing a theme also
/// switches to that theme's mode; committing one keeps the mode.
pub open spec fn changed_preferences(
    base: AppearancePreferences,
    change: AppearanceChange,
    previewing: bool,
) -> AppearancePreferences {
    match change {
        AppearanceChange::Theme { name, mode } => {
            let with_name = match mode {
                ThemeMode::Light => AppearancePreferences { light_theme: name, ..base },
                ThemeMode::Dark => AppearancePreferences { dark_theme: name, ..base },
            };
            if previewing {
                AppearancePreferences { mode: mode_for_theme(mode), ..with_name }
            } else {
                with_name
            }
        },
        AppearanceChange::FontFamily(family) => AppearancePreferences { font_family: family, ..base },
        AppearanceChange::FontSize(size) => AppearancePreferences { font_size: size, ..base },
        AppearanceChange::Mode(mode) => AppearancePreferences { mode, ..base },
    }
}

fn apply_change(base: &AppearancePreferences, change: &AppearanceChange, previewing: bool) -> (p:
    AppearancePreferences)
    ensures
        p == changed_preferences(*base, *change, previewing),
{
    let mut candidate = base.duplicate();
    match change {
        AppearanceChange::Theme { name, mode } => {
            match mode {
                ThemeMode::Light => {
                    candidate.light_theme = name.clone();
                },
                ThemeMode::Dark => {
                    candidate.dark_theme = name.clone();
                },
            }
            if previewing {
                candidate.mode =
                match mode {
                    ThemeMode::Light => AppearanceMode::Light,
                    ThemeMode::Dark => AppearanceMode::Dark,
                };
            }
        },
        AppearanceChange::FontFamily(family) => {
            candidate.font_family = family.clone();
        },
        AppearanceChange::FontSize(size) => {
            candidate.font_size = *size;
        },
        AppearanceChange::Mode(mode) => {
            candidate.mode = *mode;
        },
    }
    candidate
}

/// Preview state of the appearance pages: the committed preferences, the
/// last preferences seen on the window, and the preview shown, if any.
pub struct AppearancePreview {
    pub committed: AppearancePreferences,
    pub last_observed: AppearancePreferences,
    pub preview: Option<AppearancePreferences>,
}

/// Restoring after a preview shows the committed preferences again and
/// leaves the state as it was before the preview, without one.
pub proof fn lemma_restore_undoes_preview(
    before: AppearancePreview,
    previewed: AppearancePreview,
    restored: AppearancePreview,
)
    requires
        previewed.preview is Some,
        previewed.committed == before.committed,
        previewed.last_observed == before.last_observed,
        restored.preview is None,
        restored.committed == previewed.committed,
        restored.last_observed == previewed.last_observed,
    ensures
        restored.effective_spec() == before.committed,
        restored == (AppearancePreview { preview: None, ..before }),
{
}

impl AppearancePreview {
    /// Starts with `initial` committed and nothing previewed.
    pub fn new(initial: &AppearancePreferences) -> (state: AppearancePreview)
        ensures
            state.committed == *initial,
            state.last_observed == *initial,
            state.preview is None,
    {
        AppearancePreview {
            committed: initial.duplicate(),
            last_observed: initial.duplicate(),
            preview: None,
        }
    }

    /// The preferences shown: the preview, or else the committed ones.
    pub open spec fn effective_spec(self) -> AppearancePreferences {
        match self.preview {
            Some(p) => p,
            None => self.committed,
        }
    }

    /// The preferences shown.
    pub fn effective(&self) -> (p: AppearancePreferences)
        ensures
            p == self.effective_spec(),
    {
        match &self.preview {
            Some(p) => p.duplicate(),
            None => self.committed.duplicate(),
        }
    }

    /// Whether a preview is shown.
    pub fn is_previewing(&self) -> (previewing: bool)
        ensures
            previewing == self.preview is Some,
    {
        self.preview.is_some()
    }

    /// Shows the committed preferences with `change` applied, without
    /// committing it; returns the preferences to show.
    pub fn preview_change(&mut self, change: &AppearanceChange) -> (shown: AppearancePreferences)
        ensures
            shown == changed_preferences(old(self).committed, *change, true),
            final(self).preview == Some(shown),
            final(self).committed == old(self).committed,
            final(self).last_observed == old(self).last_observed,
    {
        let candidate = apply_change(&self.committed, change, true);
        self.preview = Some(candidate.duplicate());
        candidate
    }

    /// Commits the committed preferences with `change` applied and drops any
    /// preview; returns the preferences to store.
    pub fn commit_change(&mut self, change: &AppearanceChange) -> (stored: AppearancePreferences)
        ensures
            stored == changed_preferences(old(self).committed, *change, false),
            final(self).preview is None,
            final(self).committed == stored,
            final(self).last_observed == stored,
    {
        let candidate = apply_change(&self.committed, change, false);
        self.commit(&candidate);
        candidate
    }

    fn commit(&mut self, candidate: &AppearancePreferences)
        ensures
            final(self).preview is None,
            final(self).committed == *candidate,
            final(self).last_observed == *candidate,
    {
        self.preview = None;
        self.committed = candidate.duplicate();
        self.last_observed = candidate.duplicate();
    }

    /// Commits the default mode and themes, keeping the typography.
    pub fn reset_themes(&mut self) -> (stored: AppearancePreferences)
        ensures
            stored.mode == AppearanceMode::System,
            stored.light_theme@ == default_light_theme_name(),
            stored.dark_theme@ == default_dark_theme_name(),
            stored.font_family == old(self).committed.font_family,
            stored.font_size == old(self).committed.font_size,
            final(self).preview is None,
            final(self).committed == stored,
            final(self).last_observed == stored,
    {
        let defaults = AppearancePreferences::default_preferences();
        let mut candidate = self.committed.duplicate();
        candidate.mode = defaults.mode;
        candidate.light_theme = defaults.light_theme;
        candidate.dark_theme = defaults.dark_theme;
        self.commit(&candidate);
        candidate
    }

    /// Commits the default typography, keeping the mode and themes.
    pub fn reset_typography(&mut self) -> (stored: AppearancePreferences)
        ensures
            stored.mode == old(self).committed.mode,
            stored.light_theme == old(self).committed.light_theme,
            stored.dark_theme == old(self).committed.dark_theme,
            stored.font_family@ == default_font_family_name(),
            stored.font_size == 16,
            final(self).preview is None,
            final(self).committed == stored,
            final(self).last_observed == stored,
    {
        let defaults = AppearancePreferences::default_preferences();
        let mut candidate = self.committed.duplicate();
        candidate.font_family = defaults.font_family;
        candidate.font_size = defaults.font_size;
        self.commit(&candidate);
        candidate
    }

    /// Drops the preview; returns whether one was shown, in which case the
    /// window goes back to the committed preferences.
    pub fn restore(&mut self) -> (restored: bool)
        ensures
            restored == old(self).preview is Some,
            final(self).preview is None,
            final(self).committed == old(self).committed,
            final(self).last_observed == old(self).last_observed,
    {
        let restored = self.preview.is_some();
        self.preview = None;
        restored
    }

    /// Takes in the preferences the window now holds: when they differ from
    /// the last ones seen, they become committed and the preview is dropped.
    /// Returns whether the state changed.
    pub fn observe(&mut self, appearance: &AppearancePreferences) -> (changed: bool)
        ensures
            changed == !same_appearance(*appearance, old(self).last_observed),
            changed ==> final(self).committed == *appearance && final(self).last_observed
                == *appearance && final(self).preview is None,
            !changed ==> *final(self) == *old(self),
    {
        if appearance_equal(appearance, &self.last_observed) {
            false
        } else {
            self.committed = appearance.duplicate();
            self.last_observed = appearance.duplicate();
            self.preview = None;
            true
        }
    }
}

/// Whether two preference sets hold the same values.
pub open spec fn same_appearance(a: AppearancePreferences, b: AppearancePreferences) -> bool {
    &&& a.mode == b.mode
    &&& a.light_theme@ == b.light_theme@
    &&& a.dark_theme@ == b.dark_theme@
    &&& a.font_family@ == b.font_family@
    &&& a.font_size == b.font_size
}

/// Whether two preference sets hold the same values.
pub fn appearance_equal(a: &AppearancePreferences, b: &AppearancePreferences) -> (equal: bool)
    ensures
        equal == same_appearance(*a, *b),
{
    a.mode == b.mode && a.light_theme == b.light_theme && a.dark_theme == b.dark_theme
        && a.font_family == b.font_family && a.font_size == b.font_size
}

/// Whether a theme card shows the theme chosen for its mode.
pub open spec fn card_selected(entry: ThemeEntry, appearance: AppearancePreferences) -> bool {
    match entry.mode {
        ThemeMode::Light => appearance.light_theme@ == entry.name@,
        ThemeMode::Dark => appearance.dark_theme@ == entry.name@,
    }
}

/// How a theme card is marked: as the theme chosen for its mode, and as the
/// one being previewed.
#[derive(Clone, Copy, Debug, PartialEq, Eq, Structural)]
pub struct CardMarks {
    pub selected: bool,
    pub previewed: bool,
}

/// Marks a theme card against the shown preferences: it is selected when it
/// is the theme of its mode, and previewed when it is selected while a
/// preview is showing.
pub fn theme_card_marks(entry: &ThemeEntry, appearance: &AppearancePreferences, previewing: bool) -> (marks:
    CardMarks)
    ensures
        marks.selected == card_selected(*entry, *appearance),
        marks.previewed == (previewing && card_selected(*entry, *appearance)),
{
    let selected = match entry.mode {
        ThemeMode::Light => appearance.light_theme == entry.name,
        ThemeMode::Dark => appearance.dark_theme == entry.name,
    };
    CardMarks { selected, previewed: previewing && selected }
}

/// Whether `needle` occurs in `text` as a run of consecutive characters.
pub open spec fn occurs_in(text: Seq<char>, needle: Seq<char>) -> bool {
    exists|i: int|
        0 <= i && i + needle.len() <= text.len() && #[trigger] text.subrange(i, i + needle.len())
            == needle
}

/// The characters of a text.
fn chars_of(text: &str) -> (chars: Vec<char>)
    ensures
        chars@ == text@,
{
    let n = text.unicode_len();
    let mut chars: Vec<char> = Vec::new();
    let mut i: usize = 0;
    while i < n
        invariant
            n == text@.len(),
            i <= n,
            chars@ == text@.subrange(0, i as int),
        decreases n - i,
    {
        chars.push(text.get_char(i));
        i += 1;
        assert(chars@ =~= text@.subrange(0, i as int));
    }
    assert(text@.subrange(0, n as int) =~= text@);
    chars
}

/// Returns whether `needle` occurs in `text`.
fn occurs(text: &Vec<char>, needle: &Vec<char>) -> (found: bool)
    ensures
        found == occurs_in(text@, needle@),
{
    let n = text.len();
    let m = needle.len();
    if m > n {
        return false;
    }
    let mut i: usize = 0;
    while i <= n - m
        invariant
            n == text@.len(),
            m == needle@.len(),
            m <= n,
            i <= n - m + 1,
            forall|k: int| 0 <= k < i ==> #[trigger] text@.subrange(k, k + m) != needle@,
        decreases n - m + 1 - i,
    {
        let mut j: usize = 0;
        while j < m && text[i + j] == needle[j]
            invariant
                n == text@.len(),
                m == needle@.len(),
                i + m <= n,
                j <= m,
                forall|t: int| 0 <= t < j ==> text@[i + t] == needle@[t],
            decreases m - j,
        {
            j += 1;
        }
        if j == m {
            assert(text@.subrange(i as int, i + m) =~= needle@);
            return true;
        }
        assert(text@.subrange(i as int, i + m)[j as int] != needle@[j as int]);
        i += 1;
    }
    proof {
        assert forall|k: int| 0 <= k && k + m <= n implies #[trigger] text@.subrange(k, k + m)
            != needle@ by {
            assert(k < i);
        }
    }
    false
}

/// Whether a name matches a search: the search is empty, or occurs in the
/// name once both are in lower case.
pub open spec fn search_matches(name: Seq<char>, query: Seq<char>) -> bool {
    let q = lowercased_text(query);
    q.len() == 0 || occurs_in(lowercased_text(name), q)
}

/// Whether a theme passes the mode filter and the search.
pub open spec fn theme_listed(entry: ThemeEntry, filter: ThemeFilter, query: Seq<char>) -> bool {
    &&& (filter == ThemeFilter::All || (filter == ThemeFilter::Light && entry.mode == ThemeMode::Light)
        || (filter == ThemeFilter::Dark && entry.mode == ThemeMode::Dark))
    &&& search_matches(entry.name@, query)
}

/// The positions, in order, of the first `n` themes listed.
pub open spec fn listed_themes(
    catalog: Seq<ThemeEntry>,
    filter: ThemeFilter,
    query: Seq<char>,
    n: int,
) -> Seq<usize>
    decreases n,
{
    if n <= 0 {
        Seq::empty()
    } else {
        let prefix = listed_themes(catalog, filter, query, n - 1);
        if theme_listed(catalog[n - 1], filter, query) {
            prefix.push((n - 1) as usize)
        } else {
            prefix
        }
    }
}

/// The positions, in order, of the first `n` font families that match the
/// search.
pub open spec fn listed_fonts(fonts: Seq<String>, query: Seq<char>, n: int) -> Seq<usize>
    decreases n,
{
    if n <= 0 {
        Seq::empty()
    } else {
        let prefix = listed_fonts(fonts, query, n - 1);
        if search_matches(fonts[n - 1]@, query) {
            prefix.push((n - 1) as usize)
        } else {
            prefix
        }
    }
}

/// The positions of the themes a theme browser lists for a mode filter and a
/// search text, in catalog order.
pub fn visible_themes(catalog: &[ThemeEntry], filter: ThemeFilter, query: &str) -> (listed: Vec<usize>)
    ensures
        listed@ == listed_themes(catalog@, filter, query@, catalog.len() as int),
{
    let lowered = lowercase_text(query);
    let needle = chars_of(lowered.as_str());
    let mut listed: Vec<usize> = Vec::new();
    let mut i: usize = 0;
    while i < catalog.len()
        invariant
            i <= catalog.len(),
            needle@ == lowercased_text(query@),
            listed@ == listed_themes(catalog@, filter, query@, i as int),
        decreases catalog.len() - i,
    {
        let entry = &catalog[i];
        let shown = if filter.matches(entry.mode) {
            if needle.len() == 0 {
                true
            } else {
                let name = lowercase_text(entry.name.as_str());
                let chars = chars_of(name.as_str());
                occurs(&chars, &needle)
            }
        } else {
            false
        };
        if shown {
            listed.push(i);
        }
        i += 1;
    }
    listed
}

/// The positions of the font families that match a search text, in order.
pub fn visible_fonts(fonts: &[String], query: &str) -> (listed: Vec<usize>)
    ensures
        listed@ == listed_fonts(fonts@, query@, fonts.len() as int),
{
    let lowered = lowercase_text(query);
    let needle = chars_of(lowered.as_str());
    let mut listed: Vec<usize> = Vec::new();
    let mut i: usize = 0;
    while i < fonts.len()
        invariant
            i <= fonts.len(),
            needle@ == lowercased_text(query@),
            listed@ == listed_fonts(fonts@, query@, i as int),
        decreases fonts.len() - i,
    {
        let shown = if needle.len() == 0 {
            true
        } else {
            let name = lowercase_text(fonts[i].as_str());
            let chars = chars_of(name.as_str());
            occurs(&chars, &needle)
        };
        if shown {
            listed.push(i);
        }
        i += 1;
    }
    listed
}

} // verus!
