use vstd::prelude::*;

verus! {

/// The colour scheme of the user interface.
#[derive(Debug, Clone, Copy, PartialEq, Eq, Structural)]
pub enum Theme {
    Dark,
    Light,
}

impl Theme {
    /// The theme that a toggle switches to.
    pub open spec fn toggled(self) -> Theme {
        match self {
            Theme::Dark => Theme::Light,
            Theme::Light => Theme::Dark,
        }
    }

    /// The text of the button that shows this theme.
    pub open spec fn label_text(self) -> Seq<char> {
        match self {
            Theme::Dark => "🌙 Dark"@,
            Theme::Light => "☀️ Light"@,
        }
    }

    /// Switches between the dark and the light theme.
    pub fn toggle(&mut self)
        ensures
            *final(self) == old(self).toggled(),
    {
        *self = match self {
            Theme::Dark => Theme::Light,
            Theme::Light => Theme::Dark,
        };
    }

    /// The label of the theme button.
    pub fn label(&self) -> (text: &'static str)
        ensures
            text@ == self.label_text(),
    {
        match self {
            Theme::Dark => "🌙 Dark",
            Theme::Light => "☀️ Light",
        }
    }
}

impl Default for Theme {
    fn default() -> (theme: Self)
        ensures
            theme == Theme::Dark,
    {
        Theme::Dark
    }
}

/// Toggling twice gives back the theme one started from, and a single
/// toggle always changes the theme.
pub proof fn lemma_toggle_involution(theme: Theme)
    ensures
        theme.toggled().toggled() == theme,
        theme.toggled() != theme,
{
}

/// The two themes are told apart by their labels.
pub proof fn lemma_labels_distinct()
    ensures
        Theme::Dark.label_text() != Theme::Light.label_text(),
{
    reveal_strlit("🌙 Dark");
    reveal_strlit("☀️ Light");
    assert(Theme::Dark.label_text()[0] != Theme::Light.label_text()[0]);
}

} // verus!
