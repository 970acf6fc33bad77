//! Simple types (`ST_*`) shared by several elements.

use vstd::prelude::*;

use crate::chars::{str_eq, to_owned_string};
use crate::error::OxmlError;

verus! {

/// Horizontal justification (`w:jc`).
#[derive(Debug, Clone, Copy, PartialEq, Eq, Structural)]
pub enum ST_Jc {
    Left,
    Center,
    Right,
    Both,
    Start,
    End,
    Distribute,
}

/// Underline style (`w:u`).
#[derive(Debug, Clone, Copy, PartialEq, Eq, Structural)]
pub enum ST_Underline {
    Single,
    Double,
    Thick,
    Dotted,
    Dash,
    Wave,
    Words,
    NoUnderline,
}

/// Text highlight color (`w:highlight`).
#[derive(Debug, Clone, Copy, PartialEq, Eq, Structural)]
pub enum ST_HighlightColor {
    Yellow,
    Green,
    Cyan,
    Magenta,
    Blue,
    Red,
    DarkBlue,
    DarkCyan,
    DarkGreen,
    DarkMagenta,
    DarkRed,
    DarkYellow,
    DarkGray,
    LightGray,
    Black,
    White,
    NoHighlight,
}

/// Border line style (`w:val` of a border edge).
#[derive(Debug, Clone, Copy, PartialEq, Eq, Structural)]
pub enum ST_Border {
    Nil,
    Single,
    Thick,
    Double,
    Dotted,
    Dashed,
    DotDash,
    Triple,
    Wave,
}

/// Tab stop alignment.
#[derive(Debug, Clone, Copy, PartialEq, Eq, Structural)]
pub enum ST_TabJc {
    Left,
    Center,
    Right,
    Decimal,
    Bar,
    Clear,
}

/// Tab leader character.
#[derive(Debug, Clone, Copy, PartialEq, Eq, Structural)]
pub enum ST_TabLeader {
    NoLeader,
    Dot,
    Hyphen,
    Underscore,
    MiddleDot,
}

/// The attribute value naming each justification.
pub open spec fn jc_name(v: ST_Jc) -> Seq<char> {
    match v {
        ST_Jc::Left => "left"@,
        ST_Jc::Center => "center"@,
        ST_Jc::Right => "right"@,
        ST_Jc::Both => "both"@,
        ST_Jc::Start => "start"@,
        ST_Jc::End => "end"@,
        ST_Jc::Distribute => "distribute"@,
    }
}

impl ST_Jc {
    /// The attribute value for this variant.
    pub fn to_str(self) -> (r: &'static str)
        ensures
            r@ == jc_name(self),
    {
        match self {
            ST_Jc::Left => "left",
            ST_Jc::Center => "center",
            ST_Jc::Right => "right",
            ST_Jc::Both => "both",
            ST_Jc::Start => "start",
            ST_Jc::End => "end",
            ST_Jc::Distribute => "distribute",
        }
    }
}

/// The attribute value naming each underline style.
pub open spec fn underline_name(v: ST_Underline) -> Seq<char> {
    match v {
        ST_Underline::Single => "single"@,
        ST_Underline::Double => "double"@,
        ST_Underline::Thick => "thick"@,
        ST_Underline::Dotted => "dotted"@,
        ST_Underline::Dash => "dash"@,
        ST_Underline::Wave => "wave"@,
        ST_Underline::Words => "words"@,
        ST_Underline::NoUnderline => "none"@,
    }
}

impl ST_Underline {
    /// The attribute value for this variant.
    pub fn to_str(self) -> (r: &'static str)
        ensures
            r@ == underline_name(self),
    {
        match self {
            ST_Underline::Single => "single",
            ST_Underline::Double => "double",
            ST_Underline::Thick => "thick",
            ST_Underline::Dotted => "dotted",
            ST_Underline::Dash => "dash",
            ST_Underline::Wave => "wave",
            ST_Underline::Words => "words",
            ST_Underline::NoUnderline => "none",
        }
    }
}

/// The attribute value naming each highlight color.
pub open spec fn highlight_name(v: ST_HighlightColor) -> Seq<char> {
    match v {
        ST_HighlightColor::Yellow => "yellow"@,
        ST_HighlightColor::Green => "green"@,
        ST_HighlightColor::Cyan => "cyan"@,
        ST_HighlightColor::Magenta => "magenta"@,
        ST_HighlightColor::Blue => "blue"@,
        ST_HighlightColor::Red => "red"@,
        ST_HighlightColor::DarkBlue => "darkBlue"@,
        ST_HighlightColor::DarkCyan => "darkCyan"@,
        ST_HighlightColor::DarkGreen => "darkGreen"@,
        ST_HighlightColor::DarkMagenta => "darkMagenta"@,
        ST_HighlightColor::DarkRed => "darkRed"@,
        ST_HighlightColor::DarkYellow => "darkYellow"@,
        ST_HighlightColor::DarkGray => "darkGray"@,
        ST_HighlightColor::LightGray => "lightGray"@,
        ST_HighlightColor::Black => "black"@,
        ST_HighlightColor::White => "white"@,
        ST_HighlightColor::NoHighlight => "none"@,
    }
}

impl ST_HighlightColor {
    /// The attribute value for this variant.
    pub fn to_str(self) -> (r: &'static str)
        ensures
            r@ == highlight_name(self),
    {
        match self {
            ST_HighlightColor::Yellow => "yellow",
            ST_HighlightColor::Green => "green",
            ST_HighlightColor::Cyan => "cyan",
            ST_HighlightColor::Magenta => "magenta",
            ST_HighlightColor::Blue => "blue",
            ST_HighlightColor::Red => "red",
            ST_HighlightColor::DarkBlue => "darkBlue",
            ST_HighlightColor::DarkCyan => "darkCyan",
            ST_HighlightColor::DarkGreen => "darkGreen",
            ST_HighlightColor::DarkMagenta => "darkMagenta",
            ST_HighlightColor::DarkRed => "darkRed",
            ST_HighlightColor::DarkYellow => "darkYellow",
            ST_HighlightColor::DarkGray => "darkGray",
            ST_HighlightColor::LightGray => "lightGray",
            ST_HighlightColor::Black => "black",
            ST_HighlightColor::White => "white",
            ST_HighlightColor::NoHighlight => "none",
        }
    }
}

/// The attribute value naming each border style.
pub open spec fn border_name(v: ST_Border) -> Seq<char> {
    match v {
        ST_Border::Nil => "none"@,
        ST_Border::Single => "single"@,
        ST_Border::Thick => "thick"@,
        ST_Border::Double => "double"@,
        ST_Border::Dotted => "dotted"@,
        ST_Border::Dashed => "dashed"@,
        ST_Border::DotDash => "dotDash"@,
        ST_Border::Triple => "triple"@,
        ST_Border::Wave => "wave"@,
    }
}

impl ST_Border {
    /// The attribute value for this variant.
    pub fn to_str(self) -> (r: &'static str)
        ensures
            r@ == border_name(self),
    {
        match self {
            ST_Border::Nil => "none",
            ST_Border::Single => "single",
            ST_Border::Thick => "thick",
            ST_Border::Double => "double",
            ST_Border::Dotted => "dotted",
            ST_Border::Dashed => "dashed",
            ST_Border::DotDash => "dotDash",
            ST_Border::Triple => "triple",
            ST_Border::Wave => "wave",
        }
    }
}

/// The attribute value naming each tab stop alignment.
pub open spec fn tab_jc_name(v: ST_TabJc) -> Seq<char> {
    match v {
        ST_TabJc::Left => "left"@,
        ST_TabJc::Center => "center"@,
        ST_TabJc::Right => "right"@,
        ST_TabJc::Decimal => "decimal"@,
        ST_TabJc::Bar => "bar"@,
        ST_TabJc::Clear => "clear"@,
    }
}

impl ST_TabJc {
    /// The attribute value for this variant.
    pub fn to_str(self) -> (r: &'static str)
        ensures
            r@ == tab_jc_name(self),
    {
        match self {
            ST_TabJc::Left => "left",
            ST_TabJc::Center => "center",
            ST_TabJc::Right => "right",
            ST_TabJc::Decimal => "decimal",
            ST_TabJc::Bar => "bar",
            ST_TabJc::Clear => "clear",
        }
    }
}

/// The attribute value naming each tab leader.
pub open spec fn tab_leader_name(v: ST_TabLeader) -> Seq<char> {
    match v {
        ST_TabLeader::NoLeader => "none"@,
        ST_TabLeader::Dot => "dot"@,
        ST_TabLeader::Hyphen => "hyphen"@,
        ST_TabLeader::Underscore => "underscore"@,
        ST_TabLeader::MiddleDot => "middleDot"@,
    }
}

impl ST_TabLeader {
    /// The attribute value for this variant.
    pub fn to_str(self) -> (r: &'static str)
        ensures
            r@ == tab_leader_name(self),
    {
        match self {
            ST_TabLeader::NoLeader => "none",
            ST_TabLeader::Dot => "dot",
            ST_TabLeader::Hyphen => "hyphen",
            ST_TabLeader::Underscore => "underscore",
            ST_TabLeader::MiddleDot => "middleDot",
        }
    }
}

/// The variant an attribute value names, if it names one.
pub open spec fn jc_parse(s: Seq<char>) -> Option<ST_Jc> {
    if s == "left"@ {
        Some(ST_Jc::Left)
    } else if s == "center"@ {
        Some(ST_Jc::Center)
    } else if s == "right"@ {
        Some(ST_Jc::Right)
    } else if s == "both"@ {
        Some(ST_Jc::Both)
    } else if s == "start"@ {
        Some(ST_Jc::Start)
    } else if s == "end"@ {
        Some(ST_Jc::End)
    } else if s == "distribute"@ {
        Some(ST_Jc::Distribute)
    } else {
        None
    }
}

impl ST_Jc {
    /// The variant an attribute value names; any other value is invalid.
    pub fn from_str(s: &str) -> (r: Result<Self, OxmlError>)
        ensures
            r is Ok <==> jc_parse(s@) is Some,
            r matches Ok(v) ==> jc_parse(s@) == Some(v),
    {
        if str_eq(s, "left") {
            Ok(ST_Jc::Left)
        } else if str_eq(s, "center") {
            Ok(ST_Jc::Center)
        } else if str_eq(s, "right") {
            Ok(ST_Jc::Right)
        } else if str_eq(s, "both") {
            Ok(ST_Jc::Both)
        } else if str_eq(s, "start") {
            Ok(ST_Jc::Start)
        } else if str_eq(s, "end") {
            Ok(ST_Jc::End)
        } else if str_eq(s, "distribute") {
            Ok(ST_Jc::Distribute)
        } else {
            Err(OxmlError::InvalidValue(to_owned_string(s)))
        }
    }
}

/// Reading back the attribute value of a variant gives the variant.
pub proof fn lemma_jc_parse_round_trip(v: ST_Jc)
    ensures
        jc_parse(jc_name(v)) == Some(v),
{
    reveal_strlit("left");
    reveal_strlit("center");
    reveal_strlit("right");
    reveal_strlit("both");
    reveal_strlit("start");
    reveal_strlit("end");
    reveal_strlit("distribute");
    assert("left"@.len() == 4);
    assert("left"@[0] == 'l');
    assert("left"@[1] == 'e');
    assert("left"@[2] == 'f');
    assert("left"@[3] == 't');
    assert("center"@.len() == 6);
    assert("center"@[0] == 'c');
    assert("center"@[1] == 'e');
    assert("center"@[2] == 'n');
    assert("center"@[3] == 't');
    assert("center"@[4] == 'e');
    assert("center"@[5] == 'r');
    assert("right"@.len() == 5);
    assert("right"@[0] == 'r');
    assert("right"@[1] == 'i');
    assert("right"@[2] == 'g');
    assert("right"@[3] == 'h');
    assert("right"@[4] == 't');
    assert("both"@.len() == 4);
    assert("both"@[0] == 'b');
    assert("both"@[1] == 'o');
    assert("both"@[2] == 't');
    assert("both"@[3] == 'h');
    assert("start"@.len() == 5);
    assert("start"@[0] == 's');
    assert("start"@[1] == 't');
    assert("start"@[2] == 'a');
    assert("start"@[3] == 'r');
    assert("start"@[4] == 't');
    assert("end"@.len() == 3);
    assert("end"@[0] == 'e');
    assert("end"@[1] == 'n');
    assert("end"@[2] == 'd');
    assert("distribute"@.len() == 10);
    assert("distribute"@[0] == 'd');
    assert("distribute"@[1] == 'i');
    assert("distribute"@[2] == 's');
    assert("distribute"@[3] == 't');
    assert("distribute"@[4] == 'r');
    assert("distribute"@[5] == 'i');
    assert("distribute"@[6] == 'b');
    assert("distribute"@[7] == 'u');
    assert("distribute"@[8] == 't');
    assert("distribute"@[9] == 'e');
}

/// The variant an attribute value names, if it names one.
pub open spec fn underline_parse(s: Seq<char>) -> Option<ST_Underline> {
    if s == "single"@ {
        Some(ST_Underline::Single)
    } else if s == "double"@ {
        Some(ST_Underline::Double)
    } else if s == "thick"@ {
        Some(ST_Underline::Thick)
    } else if s == "dotted"@ {
        Some(ST_Underline::Dotted)
    } else if s == "dash"@ {
        Some(ST_Underline::Dash)
    } else if s == "wave"@ {
        Some(ST_Underline::Wave)
    } else if s == "words"@ {
        Some(ST_Underline::Words)
    } else if s == "none"@ {
        Some(ST_Underline::NoUnderline)
    } else {
        None
    }
}

impl ST_Underline {
    /// The variant an attribute value names; any other value is invalid.
    pub fn from_str(s: &str) -> (r: Result<Self, OxmlError>)
        ensures
            r is Ok <==> underline_parse(s@) is Some,
            r matches Ok(v) ==> underline_parse(s@) == Some(v),
    {
        if str_eq(s, "single") {
            Ok(ST_Underline::Single)
        } else if str_eq(s, "double") {
            Ok(ST_Underline::Double)
        } else if str_eq(s, "thick") {
            Ok(ST_Underline::Thick)
        } else if str_eq(s, "dotted") {
            Ok(ST_Underline::Dotted)
        } else if str_eq(s, "dash") {
            Ok(ST_Underline::Dash)
        } else if str_eq(s, "wave") {
            Ok(ST_Underline::Wave)
        } else if str_eq(s, "words") {
            Ok(ST_Underline::Words)
        } else if str_eq(s, "none") {
            Ok(ST_Underline::NoUnderline)
        } else {
            Err(OxmlError::InvalidValue(to_owned_string(s)))
        }
    }
}

/// Reading back the attribute value of a variant gives the variant.
pub proof fn lemma_underline_parse_round_trip(v: ST_Underline)
    ensures
        underline_parse(underline_name(v)) == Some(v),
{
    reveal_strlit("single");
    reveal_strlit("double");
    reveal_strlit("thick");
    reveal_strlit("dotted");
    reveal_strlit("dash");
    reveal_strlit("wave");
    reveal_strlit("words");
    reveal_strlit("none");
    assert("single"@.len() == 6);
    assert("single"@[0] == 's');
    assert("single"@[1] == 'i');
    assert("single"@[2] == 'n');
    assert("single"@[3] == 'g');
    assert("single"@[4] == 'l');
    assert("single"@[5] == 'e');
    assert("double"@.len() == 6);
    assert("double"@[0] == 'd');
    assert("double"@[1] == 'o');
    assert("double"@[2] == 'u');
    assert("double"@[3] == 'b');
    assert("double"@[4] == 'l');
    assert("double"@[5] == 'e');
    assert("thick"@.len() == 5);
    assert("thick"@[0] == 't');
    assert("thick"@[1] == 'h');
    assert("thick"@[2] == 'i');
    assert("thick"@[3] == 'c');
    assert("thick"@[4] == 'k');
    assert("dotted"@.len() == 6);
    assert("dotted"@[0] == 'd');
    assert("dotted"@[1] == 'o');
    assert("dotted"@[2] == 't');
    assert("dotted"@[3] == 't');
    assert("dotted"@[4] == 'e');
    assert("dotted"@[5] == 'd');
    assert("dash"@.len() == 4);
    assert("dash"@[0] == 'd');
    assert("dash"@[1] == 'a');
    assert("dash"@[2] == 's');
    assert("dash"@[3] == 'h');
    assert("wave"@.len() == 4);
    assert("wave"@[0] == 'w');
    assert("wave"@[1] == 'a');
    assert("wave"@[2] == 'v');
    assert("wave"@[3] == 'e');
    assert("words"@.len() == 5);
    assert("words"@[0] == 'w');
    assert("words"@[1] == 'o');
    assert("words"@[2] == 'r');
    assert("words"@[3] == 'd');
    assert("words"@[4] == 's');
    assert("none"@.len() == 4);
    assert("none"@[0] == 'n');
    assert("none"@[1] == 'o');
    assert("none"@[2] == 'n');
    assert("none"@[3] == 'e');
}

/// The variant an attribute value names, if it names one.
pub open spec fn highlight_parse(s: Seq<char>) -> Option<ST_HighlightColor> {
    if s == "yellow"@ {
        Some(ST_HighlightColor::Yellow)
    } else if s == "green"@ {
        Some(ST_HighlightColor::Green)
    } else if s == "cyan"@ {
        Some(ST_HighlightColor::Cyan)
    } else if s == "magenta"@ {
        Some(ST_HighlightColor::Magenta)
    } else if s == "blue"@ {
        Some(ST_HighlightColor::Blue)
    } else if s == "red"@ {
        Some(ST_HighlightColor::Red)
    } else if s == "darkBlue"@ {
        Some(ST_HighlightColor::DarkBlue)
    } else if s == "darkCyan"@ {
        Some(ST_HighlightColor::DarkCyan)
    } else if s == "darkGreen"@ {
        Some(ST_HighlightColor::DarkGreen)
    } else if s == "darkMagenta"@ {
        Some(ST_HighlightColor::DarkMagenta)
    } else if s == "darkRed"@ {
        Some(ST_HighlightColor::DarkRed)
    } else if s == "darkYellow"@ {
        Some(ST_HighlightColor::DarkYellow)
    } else if s == "darkGray"@ {
        Some(ST_HighlightColor::DarkGray)
    } else if s == "lightGray"@ {
        Some(ST_HighlightColor::LightGray)
    } else if s == "black"@ {
        Some(ST_HighlightColor::Black)
    } else if s == "white"@ {
        Some(ST_HighlightColor::White)
    } else if s == "none"@ {
        Some(ST_HighlightColor::NoHighlight)
    } else {
        None
    }
}

impl ST_HighlightColor {
    /// The variant an attribute value names; any other value is invalid.
    pub fn from_str(s: &str) -> (r: Result<Self, OxmlError>)
        ensures
            r is Ok <==> highlight_parse(s@) is Some,
            r matches Ok(v) ==> highlight_parse(s@) == Some(v),
    {
        if str_eq(s, "yellow") {
            Ok(ST_HighlightColor::Yellow)
        } else if str_eq(s, "green") {
            Ok(ST_HighlightColor::Green)
        } else if str_eq(s, "cyan") {
            Ok(ST_HighlightColor::Cyan)
        } else if str_eq(s, "magenta") {
            Ok(ST_HighlightColor::Magenta)
        } else if str_eq(s, "blue") {
            Ok(ST_HighlightColor::Blue)
        } else if str_eq(s, "red") {
            Ok(ST_HighlightColor::Red)
        } else if str_eq(s, "darkBlue") {
            Ok(ST_HighlightColor::DarkBlue)
        } else if str_eq(s, "darkCyan") {
            Ok(ST_HighlightColor::DarkCyan)
        } else if str_eq(s, "darkGreen") {
            Ok(ST_HighlightColor::DarkGreen)
        } else if str_eq(s, "darkMagenta") {
            Ok(ST_HighlightColor::DarkMagenta)
        } else if str_eq(s, "darkRed") {
            Ok(ST_HighlightColor::DarkRed)
        } else if str_eq(s, "darkYellow") {
            Ok(ST_HighlightColor::DarkYellow)
        } else if str_eq(s, "darkGray") {
            Ok(ST_HighlightColor::DarkGray)
        } else if str_eq(s, "lightGray") {
            Ok(ST_HighlightColor::LightGray)
        } else if str_eq(s, "black") {
            Ok(ST_HighlightColor::Black)
        } else if str_eq(s, "white") {
            Ok(ST_HighlightColor::White)
        } else if str_eq(s, "none") {
            Ok(ST_HighlightColor::NoHighlight)
        } else {
            Err(OxmlError::InvalidValue(to_owned_string(s)))
        }
    }
}

/// Reading back the attribute value of a variant gives the variant.
pub proof fn lemma_highlight_parse_round_trip(v: ST_HighlightColor)
    ensures
        highlight_parse(highlight_name(v)) == Some(v),
{
    reveal_strlit("yellow");
    reveal_strlit("green");
    reveal_strlit("cyan");
    reveal_strlit("magenta");
    reveal_strlit("blue");
    reveal_strlit("red");
    reveal_strlit("darkBlue");
    reveal_strlit("darkCyan");
    reveal_strlit("darkGreen");
    reveal_strlit("darkMagenta");
    reveal_strlit("darkRed");
    reveal_strlit("darkYellow");
    reveal_strlit("darkGray");
    reveal_strlit("lightGray");
    reveal_strlit("black");
    reveal_strlit("white");
    reveal_strlit("none");
    assert("yellow"@.len() == 6);
    assert("yellow"@[0] == 'y');
    assert("yellow"@[1] == 'e');
    assert("yellow"@[2] == 'l');
    assert("yellow"@[3] == 'l');
    assert("yellow"@[4] == 'o');
    assert("yellow"@[5] == 'w');
    assert("green"@.len() == 5);
    assert("green"@[0] == 'g');
    assert("green"@[1] == 'r');
    assert("green"@[2] == 'e');
    assert("green"@[3] == 'e');
    assert("green"@[4] == 'n');
    assert("cyan"@.len() == 4);
    assert("cyan"@[0] == 'c');
    assert("cyan"@[1] == 'y');
    assert("cyan"@[2] == 'a');
    assert("cyan"@[3] == 'n');
    assert("magenta"@.len() == 7);
    assert("magenta"@[0] == 'm');
    assert("magenta"@[1] == 'a');
    assert("magenta"@[2] == 'g');
    assert("magenta"@[3] == 'e');
    assert("magenta"@[4] == 'n');
    assert("magenta"@[5] == 't');
    assert("magenta"@[6] == 'a');
    assert("blue"@.len() == 4);
    assert("blue"@[0] == 'b');
    assert("blue"@[1] == 'l');
    assert("blue"@[2] == 'u');
    assert("blue"@[3] == 'e');
    assert("red"@.len() == 3);
    assert("red"@[0] == 'r');
    assert("red"@[1] == 'e');
    assert("red"@[2] == 'd');
    assert("darkBlue"@.len() == 8);
    assert("darkBlue"@[0] == 'd');
    assert("darkBlue"@[1] == 'a');
    assert("darkBlue"@[2] == 'r');
    assert("darkBlue"@[3] == 'k');
    assert("darkBlue"@[4] == 'B');
    assert("darkBlue"@[5] == 'l');
    assert("darkBlue"@[6] == 'u');
    assert("darkBlue"@[7] == 'e');
    assert("darkCyan"@.len() == 8);
    assert("darkCyan"@[0] == 'd');
    assert("darkCyan"@[1] == 'a');
    assert("darkCyan"@[2] == 'r');
    assert("darkCyan"@[3] == 'k');
    assert("darkCyan"@[4] == 'C');
    assert("darkCyan"@[5] == 'y');
    assert("darkCyan"@[6] == 'a');
    assert("darkCyan"@[7] == 'n');
    assert("darkGreen"@.len() == 9);
    assert("darkGreen"@[0] == 'd');
    assert("darkGreen"@[1] == 'a');
    assert("darkGreen"@[2] == 'r');
    assert("darkGreen"@[3] == 'k');
    assert("darkGreen"@[4] == 'G');
    assert("darkGreen"@[5] == 'r');
    assert("darkGreen"@[6] == 'e');
    assert("darkGreen"@[7] == 'e');
    assert("darkGreen"@[8] == 'n');
    assert("darkMagenta"@.len() == 11);
    assert("darkMagenta"@[0] == 'd');
    assert("darkMagenta"@[1] == 'a');
    assert("darkMagenta"@[2] == 'r');
    assert("darkMagenta"@[3] == 'k');
    assert("darkMagenta"@[4] == 'M');
    assert("darkMagenta"@[5] == 'a');
    assert("darkMagenta"@[6] == 'g');
    assert("darkMagenta"@[7] == 'e');
    assert("darkMagenta"@[8] == 'n');
    assert("darkMagenta"@[9] == 't');
    assert("darkMagenta"@[10] == 'a');
    assert("darkRed"@.len() == 7);
    assert("darkRed"@[0] == 'd');
    assert("darkRed"@[1] == 'a');
    assert("darkRed"@[2] == 'r');
    assert("darkRed"@[3] == 'k');
    assert("darkRed"@[4] == 'R');
    assert("darkRed"@[5] == 'e');
    assert("darkRed"@[6] == 'd');
    assert("darkYellow"@.len() == 10);
    assert("darkYellow"@[0] == 'd');
    assert("darkYellow"@[1] == 'a');
    assert("darkYellow"@[2] == 'r');
    assert("darkYellow"@[3] == 'k');
    assert("darkYellow"@[4] == 'Y');
    assert("darkYellow"@[5] == 'e');
    assert("darkYellow"@[6] == 'l');
    assert("darkYellow"@[7] == 'l');
    assert("darkYellow"@[8] == 'o');
    assert("darkYellow"@[9] == 'w');
    assert("darkGray"@.len() == 8);
    assert("darkGray"@[0] == 'd');
    assert("darkGray"@[1] == 'a');
    assert("darkGray"@[2] == 'r');
    assert("darkGray"@[3] == 'k');
    assert("darkGray"@[4] == 'G');
    assert("darkGray"@[5] == 'r');
    assert("darkGray"@[6] == 'a');
    assert("darkGray"@[7] == 'y');
    assert("lightGray"@.len() == 9);
    assert("lightGray"@[0] == 'l');
    assert("lightGray"@[1] == 'i');
    assert("lightGray"@[2] == 'g');
    assert("lightGray"@[3] == 'h');
    assert("lightGray"@[4] == 't');
    assert("lightGray"@[5] == 'G');
    assert("lightGray"@[6] == 'r');
    assert("lightGray"@[7] == 'a');
    assert("lightGray"@[8] == 'y');
    assert("black"@.len() == 5);
    assert("black"@[0] == 'b');
    assert("black"@[1] == 'l');
    assert("black"@[2] == 'a');
    assert("black"@[3] == 'c');
    assert("black"@[4] == 'k');
    assert("white"@.len() == 5);
    assert("white"@[0] == 'w');
    assert("white"@[1] == 'h');
    assert("white"@[2] == 'i');
    assert("white"@[3] == 't');
    assert("white"@[4] == 'e');
    assert("none"@.len() == 4);
    assert("none"@[0] == 'n');
    assert("none"@[1] == 'o');
    assert("none"@[2] == 'n');
    assert("none"@[3] == 'e');
}

/// The variant an attribute value names, if it names one.
pub open spec fn border_parse(s: Seq<char>) -> Option<ST_Border> {
    if s == "none"@ {
        Some(ST_Border::Nil)
    } else if s == "single"@ {
        Some(ST_Border::Single)
    } else if s == "thick"@ {
        Some(ST_Border::Thick)
    } else if s == "double"@ {
        Some(ST_Border::Double)
    } else if s == "dotted"@ {
        Some(ST_Border::Dotted)
    } else if s == "dashed"@ {
        Some(ST_Border::Dashed)
    } else if s == "dotDash"@ {
        Some(ST_Border::DotDash)
    } else if s == "triple"@ {
        Some(ST_Border::Triple)
    } else if s == "wave"@ {
        Some(ST_Border::Wave)
    } else {
        None
    }
}

impl ST_Border {
    /// The variant an attribute value names; any other value is invalid.
    pub fn from_str(s: &str) -> (r: Result<Self, OxmlError>)
        ensures
            r is Ok <==> border_parse(s@) is Some,
            r matches Ok(v) ==> border_parse(s@) == Some(v),
    {
        if str_eq(s, "none") {
            Ok(ST_Border::Nil)
        } else if str_eq(s, "single") {
            Ok(ST_Border::Single)
        } else if str_eq(s, "thick") {
            Ok(ST_Border::Thick)
        } else if str_eq(s, "double") {
            Ok(ST_Border::Double)
        } else if str_eq(s, "dotted") {
            Ok(ST_Border::Dotted)
        } else if str_eq(s, "dashed") {
            Ok(ST_Border::Dashed)
        } else if str_eq(s, "dotDash") {
            Ok(ST_Border::DotDash)
        } else if str_eq(s, "triple") {
            Ok(ST_Border::Triple)
        } else if str_eq(s, "wave") {
            Ok(ST_Border::Wave)
        } else {
            Err(OxmlError::InvalidValue(to_owned_string(s)))
        }
    }
}

/// Reading back the attribute value of a variant gives the variant.
pub proof fn lemma_border_parse_round_trip(v: ST_Border)
    ensures
        border_parse(border_name(v)) == Some(v),
{
    reveal_strlit("none");
    reveal_strlit("single");
    reveal_strlit("thick");
    reveal_strlit("double");
    reveal_strlit("dotted");
    reveal_strlit("dashed");
    reveal_strlit("dotDash");
    reveal_strlit("triple");
    reveal_strlit("wave");
    assert("none"@.len() == 4);
    assert("none"@[0] == 'n');
    assert("none"@[1] == 'o');
    assert("none"@[2] == 'n');
    assert("none"@[3] == 'e');
    assert("single"@.len() == 6);
    assert("single"@[0] == 's');
    assert("single"@[1] == 'i');
    assert("single"@[2] == 'n');
    assert("single"@[3] == 'g');
    assert("single"@[4] == 'l');
    assert("single"@[5] == 'e');
    assert("thick"@.len() == 5);
    assert("thick"@[0] == 't');
    assert("thick"@[1] == 'h');
    assert("thick"@[2] == 'i');
    assert("thick"@[3] == 'c');
    assert("thick"@[4] == 'k');
    assert("double"@.len() == 6);
    assert("double"@[0] == 'd');
    assert("double"@[1] == 'o');
    assert("double"@[2] == 'u');
    assert("double"@[3] == 'b');
    assert("double"@[4] == 'l');
    assert("double"@[5] == 'e');
    assert("dotted"@.len() == 6);
    assert("dotted"@[0] == 'd');
    assert("dotted"@[1] == 'o');
    assert("dotted"@[2] == 't');
    assert("dotted"@[3] == 't');
    assert("dotted"@[4] == 'e');
    assert("dotted"@[5] == 'd');
    assert("dashed"@.len() == 6);
    assert("dashed"@[0] == 'd');
    assert("dashed"@[1] == 'a');
    assert("dashed"@[2] == 's');
    assert("dashed"@[3] == 'h');
    assert("dashed"@[4] == 'e');
    assert("dashed"@[5] == 'd');
    assert("dotDash"@.len() == 7);
    assert("dotDash"@[0] == 'd');
    assert("dotDash"@[1] == 'o');
    assert("dotDash"@[2] == 't');
    assert("dotDash"@[3] == 'D');
    assert("dotDash"@[4] == 'a');
    assert("dotDash"@[5] == 's');
    assert("dotDash"@[6] == 'h');
    assert("triple"@.len() == 6);
    assert("triple"@[0] == 't');
    assert("triple"@[1] == 'r');
    assert("triple"@[2] == 'i');
    assert("triple"@[3] == 'p');
    assert("triple"@[4] == 'l');
    assert("triple"@[5] == 'e');
    assert("wave"@.len() == 4);
    assert("wave"@[0] == 'w');
    assert("wave"@[1] == 'a');
    assert("wave"@[2] == 'v');
    assert("wave"@[3] == 'e');
}

/// The variant an attribute value names, if it names one.
pub open spec fn tab_jc_parse(s: Seq<char>) -> Option<ST_TabJc> {
    if s == "left"@ {
        Some(ST_TabJc::Left)
    } else if s == "center"@ {
        Some(ST_TabJc::Center)
    } else if s == "right"@ {
        Some(ST_TabJc::Right)
    } else if s == "decimal"@ {
        Some(ST_TabJc::Decimal)
    } else if s == "bar"@ {
        Some(ST_TabJc::Bar)
    } else if s == "clear"@ {
        Some(ST_TabJc::Clear)
    } else {
        None
    }
}

impl ST_TabJc {
    /// The variant an attribute value names; any other value is invalid.
    pub fn from_str(s: &str) -> (r: Result<Self, OxmlError>)
        ensures
            r is Ok <==> tab_jc_parse(s@) is Some,
            r matches Ok(v) ==> tab_jc_parse(s@) == Some(v),
    {
        if str_eq(s, "left") {
            Ok(ST_TabJc::Left)
        } else if str_eq(s, "center") {
            Ok(ST_TabJc::Center)
        } else if str_eq(s, "right") {
            Ok(ST_TabJc::Right)
        } else if str_eq(s, "decimal") {
            Ok(ST_TabJc::Decimal)
        } else if str_eq(s, "bar") {
            Ok(ST_TabJc::Bar)
        } else if str_eq(s, "clear") {
            Ok(ST_TabJc::Clear)
        } else {
            Err(OxmlError::InvalidValue(to_owned_string(s)))
        }
    }
}

/// Reading back the attribute value of a variant gives the variant.
pub proof fn lemma_tab_jc_parse_round_trip(v: ST_TabJc)
    ensures
        tab_jc_parse(tab_jc_name(v)) == Some(v),
{
    reveal_strlit("left");
    reveal_strlit("center");
    reveal_strlit("right");
    reveal_strlit("decimal");
    reveal_strlit("bar");
    reveal_strlit("clear");
    assert("left"@.len() == 4);
    assert("left"@[0] == 'l');
    assert("left"@[1] == 'e');
    assert("left"@[2] == 'f');
    assert("left"@[3] == 't');
    assert("center"@.len() == 6);
    assert("center"@[0] == 'c');
    assert("center"@[1] == 'e');
    assert("center"@[2] == 'n');
    assert("center"@[3] == 't');
    assert("center"@[4] == 'e');
    assert("center"@[5] == 'r');
    assert("right"@.len() == 5);
    assert("right"@[0] == 'r');
    assert("right"@[1] == 'i');
    assert("right"@[2] == 'g');
    assert("right"@[3] == 'h');
    assert("right"@[4] == 't');
    assert("decimal"@.len() == 7);
    assert("decimal"@[0] == 'd');
    assert("decimal"@[1] == 'e');
    assert("decimal"@[2] == 'c');
    assert("decimal"@[3] == 'i');
    assert("decimal"@[4] == 'm');
    assert("decimal"@[5] == 'a');
    assert("decimal"@[6] == 'l');
    assert("bar"@.len() == 3);
    assert("bar"@[0] == 'b');
    assert("bar"@[1] == 'a');
    assert("bar"@[2] == 'r');
    assert("clear"@.len() == 5);
    assert("clear"@[0] == 'c');
    assert("clear"@[1] == 'l');
    assert("clear"@[2] == 'e');
    assert("clear"@[3] == 'a');
    assert("clear"@[4] == 'r');
}

/// The variant an attribute value names, if it names one.
pub open spec fn tab_leader_parse(s: Seq<char>) -> Option<ST_TabLeader> {
    if s == "none"@ {
        Some(ST_TabLeader::NoLeader)
    } else if s == "dot"@ {
        Some(ST_TabLeader::Dot)
    } else if s == "hyphen"@ {
        Some(ST_TabLeader::Hyphen)
    } else if s == "underscore"@ {
        Some(ST_TabLeader::Underscore)
    } else if s == "middleDot"@ {
        Some(ST_TabLeader::MiddleDot)
    } else {
        None
    }
}

impl ST_TabLeader {
    /// The variant an attribute value names; any other value is invalid.
    pub fn from_str(s: &str) -> (r: Result<Self, OxmlError>)
        ensures
            r is Ok <==> tab_leader_parse(s@) is Some,
            r matches Ok(v) ==> tab_leader_parse(s@) == Some(v),
    {
        if str_eq(s, "none") {
            Ok(ST_TabLeader::NoLeader)
        } else if str_eq(s, "dot") {
            Ok(ST_TabLeader::Dot)
        } else if str_eq(s, "hyphen") {
            Ok(ST_TabLeader::Hyphen)
        } else if str_eq(s, "underscore") {
            Ok(ST_TabLeader::Underscore)
        } else if str_eq(s, "middleDot") {
            Ok(ST_TabLeader::MiddleDot)
        } else {
            Err(OxmlError::InvalidValue(to_owned_string(s)))
        }
    }
}

/// Reading back the attribute value of a variant gives the variant.
pub proof fn lemma_tab_leader_parse_round_trip(v: ST_TabLeader)
    ensures
        tab_leader_parse(tab_leader_name(v)) == Some(v),
{
    reveal_strlit("none");
    reveal_strlit("dot");
    reveal_strlit("hyphen");
    reveal_strlit("underscore");
    reveal_strlit("middleDot");
    assert("none"@.len() == 4);
    assert("none"@[0] == 'n');
    assert("none"@[1] == 'o');
    assert("none"@[2] == 'n');
    assert("none"@[3] == 'e');
    assert("dot"@.len() == 3);
    assert("dot"@[0] == 'd');
    assert("dot"@[1] == 'o');
    assert("dot"@[2] == 't');
    assert("hyphen"@.len() == 6);
    assert("hyphen"@[0] == 'h');
    assert("hyphen"@[1] == 'y');
    assert("hyphen"@[2] == 'p');
    assert("hyphen"@[3] == 'h');
    assert("hyphen"@[4] == 'e');
    assert("hyphen"@[5] == 'n');
    assert("underscore"@.len() == 10);
    assert("underscore"@[0] == 'u');
    assert("underscore"@[1] == 'n');
    assert("underscore"@[2] == 'd');
    assert("underscore"@[3] == 'e');
    assert("underscore"@[4] == 'r');
    assert("underscore"@[5] == 's');
    assert("underscore"@[6] == 'c');
    assert("underscore"@[7] == 'o');
    assert("underscore"@[8] == 'r');
    assert("underscore"@[9] == 'e');
    assert("middleDot"@.len() == 9);
    assert("middleDot"@[0] == 'm');
    assert("middleDot"@[1] == 'i');
    assert("middleDot"@[2] == 'd');
    assert("middleDot"@[3] == 'd');
    assert("middleDot"@[4] == 'l');
    assert("middleDot"@[5] == 'e');
    assert("middleDot"@[6] == 'D');
    assert("middleDot"@[7] == 'o');
    assert("middleDot"@[8] == 't');
}

} // verus!
