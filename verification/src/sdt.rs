//! Structured document tags (content controls).

use vstd::prelude::*;

use crate::chars::to_owned_string;
use crate::error::OxmlError;
use crate::xml::{
    attr_views, element, emit_element, emit_empty, emit_empty_attr, emit_empty_attrs, emit_end, emit_start_attr,
    emit_text, empty_tag, empty_tag_attr, empty_tag_attrs, end_tag, push_attr, start_tag_attr, text_bytes,
};

verus! {

/// The kind of content control.
#[derive(Debug, Clone, PartialEq)]
pub enum SdtKind {
    /// Plain text.
    Text,
    /// Rich text.
    RichText,
    /// Drop-down list of (display text, value).
    DropDown(Vec<(String, String)>),
    /// Combo box of (display text, value).
    ComboBox(Vec<(String, String)>),
    /// Date picker with the given date format.
    Date(String),
    /// Check box, checked or not.
    Checkbox(bool),
}

/// `CT_Sdt` — a content control.
#[derive(Debug, Clone, PartialEq)]
pub struct CT_Sdt {
    pub kind: SdtKind,
    pub tag: Option<String>,
    pub alias: Option<String>,
    /// Initial text content.
    pub text: Option<String>,
}

impl CT_Sdt {
    /// A content control of `kind` tagged `tag`, with no alias or text.
    pub fn new(kind: SdtKind, tag: &str) -> (r: Self)
        ensures
            r.kind == kind,
            r.tag matches Some(t) && t@ == tag@,
            r.alias is None,
            r.text is None,
    {
        CT_Sdt { kind, tag: Some(to_owned_string(tag)), alias: None, text: None }
    }
}


/// An optional `w:val` element.
pub open spec fn opt_val_el(tag: Seq<char>, v: Option<String>) -> Seq<u8> {
    match v {
        Some(s) => empty_tag_attr(tag, "w:val"@, s@),
        None => Seq::empty(),
    }
}

/// The items of a list control, each with its display text and value.
pub open spec fn list_items_xml(opts: Seq<(String, String)>) -> Seq<u8>
    decreases opts.len(),
{
    if opts.len() == 0 {
        Seq::empty()
    } else {
        list_items_xml(opts.drop_last()) + empty_tag_attrs(
            "w:listItem"@,
            seq![("w:displayText"@, opts.last().0@), ("w:value"@, opts.last().1@)],
        )
    }
}

/// What the kind of control adds to its properties.
pub open spec fn sdt_kind_xml(k: SdtKind) -> Seq<u8> {
    match k {
        SdtKind::Text => empty_tag("w:text"@),
        SdtKind::RichText => empty_tag("w:richText"@),
        SdtKind::DropDown(o) => element("w:dropDownList"@, list_items_xml(o@)),
        SdtKind::ComboBox(o) => element("w:comboBox"@, list_items_xml(o@)),
        SdtKind::Date(f) => element("w:date"@, empty_tag_attr("w:dateFormat"@, "w:val"@, f@)),
        SdtKind::Checkbox(c) => element(
            "w14:checkbox"@,
            empty_tag_attr("w14:checked"@, "w14:val"@, if c { "1"@ } else { "0"@ }),
        ),
    }
}

/// The properties: alias, tag, then the kind.
pub open spec fn sdt_pr_xml(s: CT_Sdt) -> Seq<u8> {
    element("w:sdtPr"@, opt_val_el("w:alias"@, s.alias) + opt_val_el("w:tag"@, s.tag) + sdt_kind_xml(s.kind))
}

/// The text shown: a ballot box (checked or not) for a check box, else the
/// initial text, if any.
pub open spec fn sdt_display(s: CT_Sdt) -> Seq<char> {
    match s.kind {
        SdtKind::Checkbox(c) => if c { "\u{2612}"@ } else { "\u{2610}"@ },
        _ => match s.text {
            Some(t) => t@,
            None => Seq::empty(),
        },
    }
}

/// The content: one paragraph with one run holding the text shown.
pub open spec fn sdt_content_xml(s: CT_Sdt) -> Seq<u8> {
    element(
        "w:sdtContent"@,
        element(
            "w:p"@,
            element(
                "w:r"@,
                start_tag_attr("w:t"@, "xml:space"@, "preserve"@) + text_bytes(sdt_display(s)) + end_tag("w:t"@),
            ),
        ),
    )
}

/// The whole `w:sdt` element.
pub open spec fn sdt_xml(s: CT_Sdt) -> Seq<u8> {
    element("w:sdt"@, sdt_pr_xml(s) + sdt_content_xml(s))
}

/// Append an optional `w:val` element.
fn write_opt_val_el(out: &mut Vec<u8>, tag: &str, v: &Option<String>)
    ensures
        final(out)@ == old(out)@ + opt_val_el(tag@, *v),
{
    match v {
        Some(x) => emit_empty_attr(out, tag, "w:val", x.as_str()),
        None => {
            proof { assert(out@ =~= old(out)@ + opt_val_el(tag@, *v)); }
        },
    }
}

impl CT_Sdt {
    /// Serialize the whole `w:sdt` element (block level).
    pub fn to_bytes(&self) -> (r: Result<Vec<u8>, OxmlError>)
        ensures
            r matches Ok(b) && b@ == sdt_xml(*self),
    {
        let mut body: Vec<u8> = Vec::new();
        self.write_pr(&mut body);
        self.write_content(&mut body);
        let mut out: Vec<u8> = Vec::new();
        emit_element(&mut out, "w:sdt", &body);
        proof { assert(out@ =~= sdt_xml(*self)); }
        Ok(out)
    }

    /// Append the properties.
    fn write_pr(&self, out: &mut Vec<u8>)
        ensures
            final(out)@ == old(out)@ + sdt_pr_xml(*self),
    {
        let mut b: Vec<u8> = Vec::new();
        write_opt_val_el(&mut b, "w:alias", &self.alias);
        write_opt_val_el(&mut b, "w:tag", &self.tag);
        match &self.kind {
            SdtKind::Text => emit_empty(&mut b, "w:text"),
            SdtKind::RichText => emit_empty(&mut b, "w:richText"),
            SdtKind::DropDown(opts) => self.write_list("w:dropDownList", opts, &mut b),
            SdtKind::ComboBox(opts) => self.write_list("w:comboBox", opts, &mut b),
            SdtKind::Date(fmt) => {
                let mut d: Vec<u8> = Vec::new();
                emit_empty_attr(&mut d, "w:dateFormat", "w:val", fmt.as_str());
                emit_element(&mut b, "w:date", &d);
            },
            SdtKind::Checkbox(checked) => {
                let mut c: Vec<u8> = Vec::new();
                emit_empty_attr(&mut c, "w14:checked", "w14:val", if *checked { "1" } else { "0" });
                emit_element(&mut b, "w14:checkbox", &c);
            },
        }
        proof {
            assert(b@ =~= opt_val_el("w:alias"@, self.alias) + opt_val_el("w:tag"@, self.tag) + sdt_kind_xml(
                self.kind,
            ));
        }
        emit_element(out, "w:sdtPr", &b);
    }

    /// Append a list control `tag` with its items.
    fn write_list(&self, tag: &str, opts: &Vec<(String, String)>, out: &mut Vec<u8>)
        ensures
            final(out)@ == old(out)@ + element(tag@, list_items_xml(opts@)),
    {
        let mut b: Vec<u8> = Vec::new();
        let mut i: usize = 0;
        proof { assert(opts@.take(0) =~= Seq::<(String, String)>::empty()); }
        while i < opts.len()
            invariant
                i <= opts@.len(),
                b@ == list_items_xml(opts@.take(i as int)),
            decreases opts@.len() - i,
        {
            let mut a: Vec<(String, String)> = Vec::new();
            push_attr(&mut a, "w:displayText", opts[i].0.clone());
            push_attr(&mut a, "w:value", opts[i].1.clone());
            proof {
                assert(attr_views(a@) =~= seq![("w:displayText"@, opts@[i as int].0@), ("w:value"@, opts@[i as int].1@)]);
                assert(opts@.take(i + 1).drop_last() =~= opts@.take(i as int));
            }
            emit_empty_attrs(&mut b, "w:listItem", a);
            i = i + 1;
        }
        proof { assert(opts@.take(i as int) =~= opts@); }
        emit_element(out, tag, &b);
    }

    /// Append the content: one paragraph with one run holding the text
    /// shown.
    fn write_content(&self, out: &mut Vec<u8>)
        ensures
            final(out)@ == old(out)@ + sdt_content_xml(*self),
    {
        let display: String = match &self.kind {
            SdtKind::Checkbox(checked) => if *checked { to_owned_string("\u{2612}") } else { to_owned_string("\u{2610}") },
            _ => match &self.text {
                Some(t) => t.clone(),
                None => String::new(),
            },
        };
        proof { assert(display@ =~= sdt_display(*self)); }
        let mut r: Vec<u8> = Vec::new();
        emit_start_attr(&mut r, "w:t", "xml:space", "preserve");
        emit_text(&mut r, display.as_str());
        emit_end(&mut r, "w:t");
        let mut p: Vec<u8> = Vec::new();
        emit_element(&mut p, "w:r", &r);
        let mut c: Vec<u8> = Vec::new();
        emit_element(&mut c, "w:p", &p);
        emit_element(out, "w:sdtContent", &c);
    }
}

} // verus!
