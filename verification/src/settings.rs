//! User preferences shared by the app and the background service.
use crate::i18n::Language;
use vstd::prelude::*;

verus! {

/// Language selection persisted independently from the detected system locale.
#[derive(Debug, Clone, Copy, PartialEq, Eq, Structural)]
pub enum LanguagePreference {
    System,
    English,
    SimplifiedChinese,
}

impl Default for LanguagePreference {
    fn default() -> (r: Self)
        ensures
            r == LanguagePreference::System,
    {
        LanguagePreference::System
    }
}

impl LanguagePreference {
    /// The language the preference selects; `system` is the language
    /// detected from the machine, used when the preference follows it.
    pub fn resolve(self, system: Language) -> (r: Language)
        ensures
            r == (match self {
                LanguagePreference::System => system,
                LanguagePreference::English => Language::English,
                LanguagePreference::SimplifiedChinese => Language::SimplifiedChinese,
            }),
    {
        match self {
            LanguagePreference::System => system,
            LanguagePreference::English => Language::English,
            LanguagePreference::SimplifiedChinese => Language::SimplifiedChinese,
        }
    }
}

/// Material colour theme persisted without coupling the core to a UI toolkit.
#[derive(Debug, Clone, Copy, PartialEq, Eq, Structural)]
pub enum ThemeColor {
    Purple,
    Blue,
    Teal,
    Green,
    Yellow,
    Orange,
    Red,
    Pink,
}

impl Default for ThemeColor {
    fn default() -> (r: Self)
        ensures
            r == ThemeColor::Purple,
    {
        ThemeColor::Purple
    }
}

/// Appearance selection persisted independently from the current system theme.
#[derive(Debug, Clone, Copy, PartialEq, Eq, Structural)]
pub enum AppearancePreference {
    System,
    Light,
    Dark,
}

impl Default for AppearancePreference {
    fn default() -> (r: Self)
        ensures
            r == AppearancePreference::System,
    {
        AppearancePreference::System
    }
}

/// User preferences shared by the app and background service.
#[derive(Debug, Clone, Copy, PartialEq, Eq, Structural)]
pub struct AppSettings {
    pub always_open_in_finder: bool,
    pub language: LanguagePreference,
    pub theme_color: ThemeColor,
    pub appearance: AppearancePreference,
}

impl Default for AppSettings {
    fn default() -> (r: Self)
        ensures
            r == (AppSettings {
                always_open_in_finder: true,
                language: LanguagePreference::System,
                theme_color: ThemeColor::Purple,
                appearance: AppearancePreference::System,
            }),
    {
        AppSettings {
            always_open_in_finder: true,
            language: LanguagePreference::System,
            theme_color: ThemeColor::Purple,
            appearance: AppearancePreference::System,
        }
    }
}

} // verus!
