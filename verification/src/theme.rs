//! The colour themes of the client.

use vstd::prelude::*;
use crate::settings::ThemeMode;

verus! {

#[derive(Clone, Copy, PartialEq, Eq, Structural, Debug)]
pub enum Theme {
    Winter,
    Black,
    Nord,
    Dracula,
    Night,
    Dim,
}

pub open spec fn theme_name(t: Theme) -> Seq<char> {
    match t {
        Theme::Winter => "Winter"@,
        Theme::Black => "Black"@,
        Theme::Nord => "Nord"@,
        Theme::Dracula => "Dracula"@,
        Theme::Night => "Night"@,
        Theme::Dim => "Dim"@,
    }
}

pub open spec fn theme_data(t: Theme) -> Seq<char> {
    match t {
        Theme::Winter => "winter"@,
        Theme::Black => "black"@,
        Theme::Nord => "nord"@,
        Theme::Dracula => "dracula"@,
        Theme::Night => "night"@,
        Theme::Dim => "dim"@,
    }
}

/// Dracula, Night and Dim are the dark themes.
pub open spec fn theme_is_dark(t: Theme) -> bool {
    t == Theme::Dracula || t == Theme::Night || t == Theme::Dim
}

pub open spec fn all_themes() -> Seq<Theme> {
    seq![Theme::Winter, Theme::Black, Theme::Nord, Theme::Dracula, Theme::Night, Theme::Dim]
}

/// The header's light/dark switch: a dark theme gives Winter, a light one
/// Dracula.
pub open spec fn toggled_theme(t: Theme) -> Theme {
    if theme_is_dark(t) {
        Theme::Winter
    } else {
        Theme::Dracula
    }
}

/// The mode a theme is saved with.
pub open spec fn mode_of_theme(t: Theme) -> ThemeMode {
    if theme_is_dark(t) {
        ThemeMode::Dark
    } else {
        ThemeMode::Light
    }
}

/// The switch always changes between light and dark, and from Winter or
/// Dracula two presses come back to where they started.
pub proof fn lemma_toggle_flips(t: Theme)
    ensures
        theme_is_dark(toggled_theme(t)) != theme_is_dark(t),
        (t == Theme::Winter || t == Theme::Dracula) ==> toggled_theme(toggled_theme(t)) == t,
{
}

impl Theme {
    /// Every theme, light ones first.
    pub fn all() -> (r: Vec<Theme>)
        ensures
            r@ == all_themes(),
            forall|t: Theme| r@.contains(t),
    {
        let r = vec![Theme::Winter, Theme::Black, Theme::Nord, Theme::Dracula, Theme::Night, Theme::Dim];
        assert(r@ =~= all_themes());
        assert forall|t: Theme| r@.contains(t) by {
            match t {
                Theme::Winter => assert(r@[0] == t),
                Theme::Black => assert(r@[1] == t),
                Theme::Nord => assert(r@[2] == t),
                Theme::Dracula => assert(r@[3] == t),
                Theme::Night => assert(r@[4] == t),
                Theme::Dim => assert(r@[5] == t),
            }
        }
        r
    }

    /// The theme's display name.
    pub fn name(&self) -> (r: &'static str)
        ensures
            r@ == theme_name(*self),
    {
        match self {
            Theme::Winter => "Winter",
            Theme::Black => "Black",
            Theme::Nord => "Nord",
            Theme::Dracula => "Dracula",
            Theme::Night => "Night",
            Theme::Dim => "Dim",
        }
    }

    /// The value of the page's `data-theme` attribute for the theme.
    pub fn data_theme(&self) -> (r: &'static str)
        ensures
            r@ == theme_data(*self),
    {
        match self {
            Theme::Winter => "winter",
            Theme::Black => "black",
            Theme::Nord => "nord",
            Theme::Dracula => "dracula",
            Theme::Night => "night",
            Theme::Dim => "dim",
        }
    }

    pub fn is_dark(&self) -> (r: bool)
        ensures
            r == theme_is_dark(*self),
    {
        match self {
            Theme::Dracula | Theme::Night | Theme::Dim => true,
            _ => false,
        }
    }

    /// The theme the light/dark switch turns this one into.
    pub fn toggled(&self) -> (r: Theme)
        ensures
            r == toggled_theme(*self),
    {
        if self.is_dark() {
            Theme::Winter
        } else {
            Theme::Dracula
        }
    }

    /// Dark for the dark themes, light for the others.
    pub fn theme_mode(&self) -> (r: ThemeMode)
        ensures
            r == mode_of_theme(*self),
    {
        if self.is_dark() {
            ThemeMode::Dark
        } else {
            ThemeMode::Light
        }
    }

    pub fn is_light(&self) -> (r: bool)
        ensures
            r == !theme_is_dark(*self),
    {
        !self.is_dark()
    }

    /// The dark themes: exactly the themes that are dark, in the order of `all`.
    pub fn dark_themes() -> (r: Vec<Theme>)
        ensures
            r@ == all_themes().filter(|t: Theme| theme_is_dark(t)),
            forall|t: Theme| r@.contains(t) <==> theme_is_dark(t),
    {
        let r = vec![Theme::Dracula, Theme::Night, Theme::Dim];
        proof {
            reveal_with_fuel(Seq::filter, 7);
            assert(r@ =~= all_themes().filter(|t: Theme| theme_is_dark(t)));
            assert forall|t: Theme| r@.contains(t) <==> theme_is_dark(t) by {
                if theme_is_dark(t) {
                    if t == Theme::Dracula {
                        assert(r@[0] == t);
                    } else if t == Theme::Night {
                        assert(r@[1] == t);
                    } else {
                        assert(r@[2] == t);
                    }
                }
            }
        }
        r
    }

    /// The light themes: exactly the themes that are not dark, in the order of
    /// `all`.
    pub fn light_themes() -> (r: Vec<Theme>)
        ensures
            r@ == all_themes().filter(|t: Theme| !theme_is_dark(t)),
            forall|t: Theme| r@.contains(t) <==> !theme_is_dark(t),
    {
        let r = vec![Theme::Winter, Theme::Black, Theme::Nord];
        proof {
            reveal_with_fuel(Seq::filter, 7);
            assert(r@ =~= all_themes().filter(|t: Theme| !theme_is_dark(t)));
            assert forall|t: Theme| r@.contains(t) <==> !theme_is_dark(t) by {
                if !theme_is_dark(t) {
                    if t == Theme::Winter {
                        assert(r@[0] == t);
                    } else if t == Theme::Black {
                        assert(r@[1] == t);
                    } else {
                        assert(r@[2] == t);
                    }
                }
            }
        }
        r
    }
}

} // verus!
