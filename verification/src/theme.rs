//! Theme colours and fonts (`word/theme/theme1.xml`).

use vstd::prelude::*;

use crate::chars::str_eq;

pub mod theme_read;

verus! {

/// A document theme: its colour scheme and major/minor fonts.
#[derive(Debug, Clone, Default)]
pub struct Theme {
    pub colors: ThemeColors,
    /// Major font (headings), e.g. "Calibri Light".
    pub major_font: Option<String>,
    /// Minor font (body text), e.g. "Calibri".
    pub minor_font: Option<String>,
}

/// The twelve theme colour slots, as hex RGB strings.
#[derive(Debug, Clone, Default)]
pub struct ThemeColors {
    pub dk1: Option<String>,
    pub dk2: Option<String>,
    pub lt1: Option<String>,
    pub lt2: Option<String>,
    pub accent1: Option<String>,
    pub accent2: Option<String>,
    pub accent3: Option<String>,
    pub accent4: Option<String>,
    pub accent5: Option<String>,
    pub accent6: Option<String>,
    pub hlink: Option<String>,
    pub fol_hlink: Option<String>,
}

/// The slot a theme colour name refers to, by its scheme name or the names
/// used in run properties (`text1` is `dk1`, `background1` is `lt1`, …).
pub open spec fn theme_slot(c: ThemeColors, name: Seq<char>) -> Option<String> {
    if name == "dark1"@ || name == "dk1"@ || name == "text1"@ {
        c.dk1
    } else if name == "dark2"@ || name == "dk2"@ || name == "text2"@ {
        c.dk2
    } else if name == "light1"@ || name == "lt1"@ || name == "background1"@ || name == "bg1"@ {
        c.lt1
    } else if name == "light2"@ || name == "lt2"@ || name == "background2"@ || name == "bg2"@ {
        c.lt2
    } else if name == "accent1"@ {
        c.accent1
    } else if name == "accent2"@ {
        c.accent2
    } else if name == "accent3"@ {
        c.accent3
    } else if name == "accent4"@ {
        c.accent4
    } else if name == "accent5"@ {
        c.accent5
    } else if name == "accent6"@ {
        c.accent6
    } else if name == "hlink"@ || name == "hyperlink"@ {
        c.hlink
    } else if name == "folHlink"@ || name == "followedHyperlink"@ {
        c.fol_hlink
    } else {
        None
    }
}

/// The text of an optional string.
fn opt_str(s: &Option<String>) -> (r: Option<&str>)
    ensures
        r matches Some(x) ==> s matches Some(y) && x@ == y@,
        r is None ==> s is None,
{
    match s {
        Some(x) => Some(x.as_str()),
        None => None,
    }
}

impl ThemeColors {
    /// Look up a theme colour by name.
    pub fn get(&self, name: &str) -> (r: Option<&str>)
        ensures
            r matches Some(x) ==> theme_slot(*self, name@) matches Some(y) && x@ == y@,
            r is None ==> theme_slot(*self, name@) is None,
    {
        if str_eq(name, "dark1") || str_eq(name, "dk1") || str_eq(name, "text1") {
            opt_str(&self.dk1)
        } else if str_eq(name, "dark2") || str_eq(name, "dk2") || str_eq(name, "text2") {
            opt_str(&self.dk2)
        } else if str_eq(name, "light1") || str_eq(name, "lt1") || str_eq(name, "background1")
            || str_eq(name, "bg1") {
            opt_str(&self.lt1)
        } else if str_eq(name, "light2") || str_eq(name, "lt2") || str_eq(name, "background2")
            || str_eq(name, "bg2") {
            opt_str(&self.lt2)
        } else if str_eq(name, "accent1") {
            opt_str(&self.accent1)
        } else if str_eq(name, "accent2") {
            opt_str(&self.accent2)
        } else if str_eq(name, "accent3") {
            opt_str(&self.accent3)
        } else if str_eq(name, "accent4") {
            opt_str(&self.accent4)
        } else if str_eq(name, "accent5") {
            opt_str(&self.accent5)
        } else if str_eq(name, "accent6") {
            opt_str(&self.accent6)
        } else if str_eq(name, "hlink") || str_eq(name, "hyperlink") {
            opt_str(&self.hlink)
        } else if str_eq(name, "folHlink") || str_eq(name, "followedHyperlink") {
            opt_str(&self.fol_hlink)
        } else {
            None
        }
    }
}

/// The names a theme colour goes by in run properties are aliases of the
/// scheme's slots: `text1` and `dark1` are `dk1`, `text2` and `dark2` are
/// `dk2`, `background1`, `bg1` and `light1` are `lt1`, `background2`, `bg2`
/// and `light2` are `lt2`.
pub proof fn lemma_theme_aliases(c: ThemeColors)
    ensures
        theme_slot(c, "dk1"@) == c.dk1,
        theme_slot(c, "dark1"@) == c.dk1,
        theme_slot(c, "text1"@) == c.dk1,
        theme_slot(c, "dk2"@) == c.dk2,
        theme_slot(c, "dark2"@) == c.dk2,
        theme_slot(c, "text2"@) == c.dk2,
        theme_slot(c, "lt1"@) == c.lt1,
        theme_slot(c, "light1"@) == c.lt1,
        theme_slot(c, "background1"@) == c.lt1,
        theme_slot(c, "bg1"@) == c.lt1,
        theme_slot(c, "lt2"@) == c.lt2,
        theme_slot(c, "light2"@) == c.lt2,
        theme_slot(c, "background2"@) == c.lt2,
        theme_slot(c, "bg2"@) == c.lt2,
{
    reveal_strlit("dark1");
    reveal_strlit("dk1");
    reveal_strlit("text1");
    reveal_strlit("dark2");
    reveal_strlit("dk2");
    reveal_strlit("text2");
    reveal_strlit("light1");
    reveal_strlit("lt1");
    reveal_strlit("background1");
    reveal_strlit("bg1");
    reveal_strlit("light2");
    reveal_strlit("lt2");
    reveal_strlit("background2");
    reveal_strlit("bg2");
    assert("dark1"@.len() == 5);
    assert("dark1"@[0] == 'd');
    assert("dark1"@[1] == 'a');
    assert("dark1"@[2] == 'r');
    assert("dark1"@[3] == 'k');
    assert("dark1"@[4] == '1');
    assert("dk1"@.len() == 3);
    assert("dk1"@[0] == 'd');
    assert("dk1"@[1] == 'k');
    assert("dk1"@[2] == '1');
    assert("text1"@.len() == 5);
    assert("text1"@[0] == 't');
    assert("text1"@[1] == 'e');
    assert("text1"@[2] == 'x');
    assert("text1"@[3] == 't');
    assert("text1"@[4] == '1');
    assert("dark2"@.len() == 5);
    assert("dark2"@[0] == 'd');
    assert("dark2"@[1] == 'a');
    assert("dark2"@[2] == 'r');
    assert("dark2"@[3] == 'k');
    assert("dark2"@[4] == '2');
    assert("dk2"@.len() == 3);
    assert("dk2"@[0] == 'd');
    assert("dk2"@[1] == 'k');
    assert("dk2"@[2] == '2');
    assert("text2"@.len() == 5);
    assert("text2"@[0] == 't');
    assert("text2"@[1] == 'e');
    assert("text2"@[2] == 'x');
    assert("text2"@[3] == 't');
    assert("text2"@[4] == '2');
    assert("light1"@.len() == 6);
    assert("light1"@[0] == 'l');
    assert("light1"@[1] == 'i');
    assert("light1"@[2] == 'g');
    assert("light1"@[3] == 'h');
    assert("light1"@[4] == 't');
    assert("light1"@[5] == '1');
    assert("lt1"@.len() == 3);
    assert("lt1"@[0] == 'l');
    assert("lt1"@[1] == 't');
    assert("lt1"@[2] == '1');
    assert("background1"@.len() == 11);
    assert("background1"@[0] == 'b');
    assert("background1"@[1] == 'a');
    assert("background1"@[2] == 'c');
    assert("background1"@[3] == 'k');
    assert("background1"@[4] == 'g');
    assert("background1"@[5] == 'r');
    assert("background1"@[6] == 'o');
    assert("background1"@[7] == 'u');
    assert("background1"@[8] == 'n');
    assert("background1"@[9] == 'd');
    assert("background1"@[10] == '1');
    assert("bg1"@.len() == 3);
    assert("bg1"@[0] == 'b');
    assert("bg1"@[1] == 'g');
    assert("bg1"@[2] == '1');
    assert("light2"@.len() == 6);
    assert("light2"@[0] == 'l');
    assert("light2"@[1] == 'i');
    assert("light2"@[2] == 'g');
    assert("light2"@[3] == 'h');
    assert("light2"@[4] == 't');
    assert("light2"@[5] == '2');
    assert("lt2"@.len() == 3);
    assert("lt2"@[0] == 'l');
    assert("lt2"@[1] == 't');
    assert("lt2"@[2] == '2');
    assert("background2"@.len() == 11);
    assert("background2"@[0] == 'b');
    assert("background2"@[1] == 'a');
    assert("background2"@[2] == 'c');
    assert("background2"@[3] == 'k');
    assert("background2"@[4] == 'g');
    assert("background2"@[5] == 'r');
    assert("background2"@[6] == 'o');
    assert("background2"@[7] == 'u');
    assert("background2"@[8] == 'n');
    assert("background2"@[9] == 'd');
    assert("background2"@[10] == '2');
    assert("bg2"@.len() == 3);
    assert("bg2"@[0] == 'b');
    assert("bg2"@[1] == 'g');
    assert("bg2"@[2] == '2');
}

} // verus!
