//! The user's settings: the OpenRouter key and the chosen theme.

use vstd::prelude::*;

verus! {

/// Whether the interface is dark or light.
#[derive(Clone, Copy, PartialEq, Eq, Structural, Debug)]
pub enum ThemeMode {
    Dark,
    Light,
}

#[derive(Clone, Debug)]
pub struct Settings {
    pub openrouter_api_key: Option<String>,
    pub theme: String,
    pub theme_mode: ThemeMode,
}

impl Default for Settings {
    /// No key, the Dracula theme, dark mode.
    fn default() -> (s: Self)
        ensures
            s.openrouter_api_key is None,
            s.theme@ == "dracula"@,
            s.theme_mode == ThemeMode::Dark,
    {
        Settings { openrouter_api_key: None, theme: "dracula".to_owned(), theme_mode: ThemeMode::Dark }
    }
}

impl Settings {
    /// Whether an API key is set.
    pub fn has_api_key(&self) -> (r: bool)
        ensures
            r == self.openrouter_api_key is Some,
    {
        self.openrouter_api_key.is_some()
    }

    /// The API key, if one is set.
    pub fn get_api_key(&self) -> (r: Option<&str>)
        ensures
            match r {
                Some(k) => self.openrouter_api_key is Some && k@ == self.openrouter_api_key->0@,
                None => self.openrouter_api_key is None,
            },
    {
        match &self.openrouter_api_key {
            Some(k) => Some(k.as_str()),
            None => None,
        }
    }

    /// Sets the API key; the theme is kept.
    pub fn set_api_key(&mut self, api_key: String)
        ensures
            final(self).openrouter_api_key == Some(api_key),
            final(self).theme == old(self).theme,
            final(self).theme_mode == old(self).theme_mode,
    {
        self.openrouter_api_key = Some(api_key);
    }

    /// Removes the API key; the theme is kept.
    pub fn clear_api_key(&mut self)
        ensures
            final(self).openrouter_api_key is None,
            final(self).theme == old(self).theme,
            final(self).theme_mode == old(self).theme_mode,
    {
        self.openrouter_api_key = None;
    }
}

} // verus!
