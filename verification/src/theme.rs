//! How a page looks: the colours of its parts, packed as `0xRRGGBBAA`, and the
//! words of its controls.
use crate::alerts::AlertKind;
use crate::inline::Ink;
use vstd::prelude::*;

verus! {

/// Border and title colours of the five callouts.
#[derive(Clone, Copy, PartialEq, Eq, Debug, Structural)]
pub struct AlertColors {
    pub note: u32,
    pub tip: u32,
    pub important: u32,
    pub warning: u32,
    pub caution: u32,
}

/// The dark palette of callouts.
pub open spec fn dark_alerts() -> AlertColors {
    AlertColors {
        note: 0x4493f8ff,
        tip: 0x3fb950ff,
        important: 0xab7df8ff,
        warning: 0xd29922ff,
        caution: 0xf85149ff,
    }
}

impl Default for AlertColors {
    fn default() -> (r: Self)
        ensures
            r == dark_alerts(),
    {
        AlertColors {
            note: 0x4493f8ff,
            tip: 0x3fb950ff,
            important: 0xab7df8ff,
            warning: 0xd29922ff,
            caution: 0xf85149ff,
        }
    }
}

/// The paths of the icons in the titles of callouts.
#[derive(PartialEq, Eq, Debug)]
pub struct AlertIcons {
    pub note: String,
    pub tip: String,
    pub important: String,
    pub warning: String,
    pub caution: String,
}

/// The colour of a kind of callout.
pub open spec fn alert_color(kind: AlertKind, c: AlertColors) -> u32 {
    match kind {
        AlertKind::Note => c.note,
        AlertKind::Tip => c.tip,
        AlertKind::Important => c.important,
        AlertKind::Warning => c.warning,
        AlertKind::Caution => c.caution,
    }
}

/// The icon of a kind of callout.
pub open spec fn alert_icon(kind: AlertKind, i: AlertIcons) -> Seq<char> {
    match kind {
        AlertKind::Note => i.note@,
        AlertKind::Tip => i.tip@,
        AlertKind::Important => i.important@,
        AlertKind::Warning => i.warning@,
        AlertKind::Caution => i.caution@,
    }
}

impl AlertKind {
    /// The border and title colour of this kind.
    pub fn color(self, c: &AlertColors) -> (r: u32)
        ensures
            r == alert_color(self, *c),
    {
        match self {
            AlertKind::Note => c.note,
            AlertKind::Tip => c.tip,
            AlertKind::Important => c.important,
            AlertKind::Warning => c.warning,
            AlertKind::Caution => c.caution,
        }
    }

    /// The path of this kind's icon.
    pub fn icon(self, i: &AlertIcons) -> (r: String)
        ensures
            r@ == alert_icon(self, *i),
    {
        match self {
            AlertKind::Note => i.note.clone(),
            AlertKind::Tip => i.tip.clone(),
            AlertKind::Important => i.important.clone(),
            AlertKind::Warning => i.warning.clone(),
            AlertKind::Caution => i.caution.clone(),
        }
    }
}

/// The words of a page's controls, which a host translates.
#[derive(PartialEq, Eq, Debug)]
pub struct Labels {
    /// The button that copies a block of code.
    pub code_copy: String,
}

impl Default for Labels {
    fn default() -> (r: Self)
        ensures
            r.code_copy@ == "Copy"@,
    {
        Labels { code_copy: "Copy".to_owned() }
    }
}

/// The colours of a page.
#[derive(Clone, Copy, PartialEq, Eq, Debug, Structural)]
pub struct MarkdownStyle {
    pub text: u32,
    pub heading: u32,
    pub link: u32,
    pub tag: u32,
    pub code: u32,
    pub code_bg: u32,
    pub muted: u32,
    /// A thematic break.
    pub rule: u32,
    /// The line that hangs below a list marker.
    pub guide: u32,
    /// Behind highlighted text.
    pub mark_bg: u32,
    /// Behind every match of a search, and behind the one that is current.
    pub search_bg: u32,
    pub search_current_bg: u32,
    pub alerts: AlertColors,
}

/// A neutral dark palette.
pub open spec fn dark_style() -> MarkdownStyle {
    MarkdownStyle {
        text: 0xe6e6e6ff,
        heading: 0xffffffff,
        link: 0x4c9effff,
        tag: 0x9d7cd8ff,
        code: 0xd7ba7dff,
        code_bg: 0xffffff14,
        muted: 0x9aa0a6ff,
        rule: 0xffffff22,
        guide: 0xffffff14,
        mark_bg: 0xffd60066,
        search_bg: 0xffd60055,
        search_current_bg: 0xff9500dd,
        alerts: dark_alerts(),
    }
}

impl Default for MarkdownStyle {
    fn default() -> (r: Self)
        ensures
            r == dark_style(),
    {
        MarkdownStyle {
            text: 0xe6e6e6ff,
            heading: 0xffffffff,
            link: 0x4c9effff,
            tag: 0x9d7cd8ff,
            code: 0xd7ba7dff,
            code_bg: 0xffffff14,
            muted: 0x9aa0a6ff,
            rule: 0xffffff22,
            guide: 0xffffff14,
            mark_bg: 0xffd60066,
            search_bg: 0xffd60055,
            search_current_bg: 0xff9500dd,
            alerts: AlertColors::default(),
        }
    }
}

/// The colour of a role.
pub open spec fn ink_color(ink: Ink, s: MarkdownStyle) -> u32 {
    match ink {
        Ink::Link => s.link,
        Ink::Tag => s.tag,
        Ink::Code => s.code,
        Ink::Muted => s.muted,
        Ink::CodeBackground => s.code_bg,
        Ink::Mark => s.mark_bg,
        Ink::Match => s.search_bg,
        Ink::CurrentMatch => s.search_current_bg,
    }
}

impl Ink {
    /// The colour of this role.
    pub fn color(self, s: &MarkdownStyle) -> (r: u32)
        ensures
            r == ink_color(self, *s),
    {
        match self {
            Ink::Link => s.link,
            Ink::Tag => s.tag,
            Ink::Code => s.code,
            Ink::Muted => s.muted,
            Ink::CodeBackground => s.code_bg,
            Ink::Mark => s.mark_bg,
            Ink::Match => s.search_bg,
            Ink::CurrentMatch => s.search_current_bg,
        }
    }
}

} // verus!
